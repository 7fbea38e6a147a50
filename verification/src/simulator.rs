//! Discrete-time, tick-based simulation of a multi-core processor running
//! aperiodic tasks under a pluggable scheduler.

use vstd::prelude::*;
use crate::task::{Task, Weather, FIXED_ONE, spec_laxity};
use crate::scheduler::{
    Scheduler, GlobalEdf, Mllf, PartitionedEdf, BuiltScheduler, edf_ranking, laxity_ranking, edf_key, laxity_key, is_ranking, lemma_by_score_ranking_unique,
    nonnegative_laxity, indices_below, lemma_nonnegative_laxity_props, lemma_push_no_dups, lemma_push_contains,
    lemma_contained_below,
};
use crate::ranking::{RankKey, RankRule, sort_keys, distinct_tasks, ranks_after, lemma_by_score_locally_sorted_is_sorted};
use crate::machine::{
    SimState, first_waiting_spec, first_waiting_from, dispatch_state, drop_upto, drop_pass, preempt_core,
    preempt_upto, fill_core, fill_upto, execute_upto, state_of, admission_order, initial_state, run_from,
    rankings_fit, admit_due, finished, tick, ranking_of, RankingRule, lemma_admit_due, lemma_drop_frame,
    lemma_preempt_frame, lemma_fill_frame, lemma_execute_frame, rule_is_functional, lemma_run_from_deterministic,
};

verus! {

/// Configuration parameters for a single simulation run.
#[derive(Debug, Clone, Copy)]
pub struct SimConfig {
    pub num_cores: usize,
    pub weather: Weather,
    /// Deadline tightness, in fixed point.
    pub tightness: i64,
    /// Context-switch cost in ticks, in fixed point.
    pub context_switch_cost: i64,
    /// Critical coefficient `C` of the preemption test, in fixed point.
    pub critical_coefficient: i64,
}

impl Default for SimConfig {
    fn default() -> (c: Self)
        ensures
            c.num_cores == 2,
            c.weather == Weather::Sunny,
            c.tightness == 1_000_000,
            c.context_switch_cost == 1_000_000,
            c.critical_coefficient == 5_000_000,
    {
        SimConfig {
            num_cores: 2,
            weather: Weather::Sunny,
            tightness: 1_000_000,
            context_switch_cost: 1_000_000,
            critical_coefficient: 5_000_000,
        }
    }
}

#[derive(Debug, Clone, Copy, PartialEq, Eq, Structural)]
pub enum DropReason {
    NegativeLaxity,
}

#[derive(Debug, Clone, Copy, PartialEq, Eq, Structural)]
pub enum SimEvent {
    Started { time: i64, task_id: usize, core: usize, preemptive: bool },
    Preempted { time: i64, task_id: usize, core: usize },
    Completed { time: i64, task_id: usize },
    Dropped { time: i64, task_id: usize, reason: DropReason },
}

/// Aggregate, per-run statistics.
#[derive(Debug, Clone, Copy)]
pub struct SimResult {
    pub total_tasks: usize,
    pub completed_on_time: usize,
    pub dropped_count: usize,
    /// Completed late, dropped, or never finished.
    pub deadline_miss_count: usize,
    pub total_context_switches: u32,
    pub makespan: i64,
    /// Per-priority-level (1..=5) miss counts: index 0 = priority 1.
    pub misses_by_priority: [usize; 5],
    pub tasks_by_priority: [usize; 5],
}

/// The priority bucket of a task: levels 1..=5 at index 0..=4, lower
/// levels in the first bucket and higher ones in the last.
pub open spec fn priority_bucket(tk: Task) -> int {
    let p = tk.priority as int;
    if p <= 1 { 0 } else if p - 1 > 4 { 4 } else { p - 1 }
}

/// A task finished no later than its deadline (and was not dropped).
pub open spec fn on_time(tk: Task) -> bool {
    !tk.dropped && (tk.finish_time matches Some(f) && f <= tk.deadline)
}

/// How a task ended up: dropped, finished by its deadline, finished late, or
/// not finished at all.
#[derive(Debug, Clone, Copy, PartialEq, Eq, Structural)]
pub enum TaskStatus {
    Dropped,
    OnTime,
    Late,
    Unfinished,
}

pub open spec fn spec_task_status(tk: Task) -> TaskStatus {
    if tk.dropped {
        TaskStatus::Dropped
    } else {
        match tk.finish_time {
            Some(f) => if f <= tk.deadline { TaskStatus::OnTime } else { TaskStatus::Late },
            None => TaskStatus::Unfinished,
        }
    }
}

/// The status of a task; it is `OnTime` exactly when the task counts as
/// on time in the run's statistics.
pub fn task_status(tk: &Task) -> (st: TaskStatus)
    ensures
        st == spec_task_status(*tk),
        (st == TaskStatus::OnTime) == on_time(*tk),
{
    if tk.dropped {
        TaskStatus::Dropped
    } else {
        match tk.finish_time {
            Some(f) => if f <= tk.deadline { TaskStatus::OnTime } else { TaskStatus::Late },
            None => TaskStatus::Unfinished,
        }
    }
}

impl TaskStatus {
    /// The label of a status in the per-task table.
    pub fn as_str(self) -> (s: &'static str)
        ensures
            s@ == status_label(self),
    {
        match self {
            TaskStatus::Dropped => "DROPPED",
            TaskStatus::OnTime => "ON-TIME",
            TaskStatus::Late => "LATE",
            TaskStatus::Unfinished => "UNFINISHED",
        }
    }
}

pub open spec fn status_label(st: TaskStatus) -> Seq<char> {
    match st {
        TaskStatus::Dropped => "DROPPED"@,
        TaskStatus::OnTime => "ON-TIME"@,
        TaskStatus::Late => "LATE"@,
        TaskStatus::Unfinished => "UNFINISHED"@,
    }
}

/// Number of tasks in `s` satisfying `p`.
pub open spec fn count_tasks(s: Seq<Task>, p: spec_fn(Task) -> bool) -> nat
    decreases s.len(),
{
    if s.len() == 0 {
        0
    } else {
        count_tasks(s.drop_last(), p) + if p(s.last()) { 1nat } else { 0nat }
    }
}

pub open spec fn is_on_time(tk: Task) -> bool { on_time(tk) }
pub open spec fn is_dropped(tk: Task) -> bool { tk.dropped }
pub open spec fn is_miss(tk: Task) -> bool { !on_time(tk) }
pub open spec fn in_bucket(b: int) -> spec_fn(Task) -> bool { |tk: Task| priority_bucket(tk) == b }
pub open spec fn missed_in_bucket(b: int) -> spec_fn(Task) -> bool { |tk: Task| !on_time(tk) && priority_bucket(tk) == b }

/// The statistics of a finished run over `tasks`.
pub open spec fn summary_of(tasks: Seq<Task>, total_context_switches: u32, makespan: i64, r: SimResult) -> bool {
    &&& r.total_tasks == tasks.len()
    &&& r.completed_on_time == count_tasks(tasks, |tk: Task| is_on_time(tk))
    &&& r.dropped_count == count_tasks(tasks, |tk: Task| is_dropped(tk))
    &&& r.deadline_miss_count == count_tasks(tasks, |tk: Task| is_miss(tk))
    &&& r.total_context_switches == total_context_switches
    &&& r.makespan == makespan
    &&& forall|b: int| 0 <= b < 5 ==> r.tasks_by_priority@[b] == count_tasks(tasks, in_bucket(b))
    &&& forall|b: int| 0 <= b < 5 ==> r.misses_by_priority@[b] == count_tasks(tasks, missed_in_bucket(b))
}

proof fn lemma_count_bound(s: Seq<Task>, p: spec_fn(Task) -> bool)
    ensures
        count_tasks(s, p) <= s.len(),
    decreases s.len(),
{
    if s.len() > 0 {
        lemma_count_bound(s.drop_last(), p);
    }
}

/// Every task is either on time or a miss.
pub proof fn lemma_on_time_plus_misses(s: Seq<Task>)
    ensures
        count_tasks(s, |tk: Task| is_on_time(tk)) + count_tasks(s, |tk: Task| is_miss(tk)) == s.len(),
    decreases s.len(),
{
    if s.len() > 0 {
        lemma_on_time_plus_misses(s.drop_last());
    }
}

/// Every dropped task is a miss.
pub proof fn lemma_dropped_are_misses(s: Seq<Task>)
    ensures
        count_tasks(s, |tk: Task| is_dropped(tk)) <= count_tasks(s, |tk: Task| is_miss(tk)),
    decreases s.len(),
{
    if s.len() > 0 {
        lemma_dropped_are_misses(s.drop_last());
    }
}

proof fn lemma_bucket_sum(s: Seq<Task>, p: spec_fn(Task) -> bool, q: spec_fn(int) -> spec_fn(Task) -> bool)
    requires
        forall|tk: Task| #[trigger] p(tk) ==> 0 <= priority_bucket(tk) < 5 && q(priority_bucket(tk))(tk),
        forall|tk: Task, b: int| 0 <= b < 5 && #[trigger] q(b)(tk) ==> p(tk) && priority_bucket(tk) == b,
    ensures
        count_tasks(s, q(0)) + count_tasks(s, q(1)) + count_tasks(s, q(2)) + count_tasks(s, q(3))
            + count_tasks(s, q(4)) == count_tasks(s, p),
    decreases s.len(),
{
    if s.len() > 0 {
        lemma_bucket_sum(s.drop_last(), p, q);
        let tk = s.last();
        if p(tk) {
            assert(q(priority_bucket(tk))(tk));
        }
        assert(q(0)(tk) ==> p(tk));
        assert(q(1)(tk) ==> p(tk) && priority_bucket(tk) == 1);
        assert(q(2)(tk) ==> p(tk) && priority_bucket(tk) == 2);
        assert(q(3)(tk) ==> p(tk) && priority_bucket(tk) == 3);
        assert(q(4)(tk) ==> p(tk) && priority_bucket(tk) == 4);
    }
}

/// The run statistics are consistent: every task is on time or missed,
/// dropped tasks are misses, and the per-priority counts add up.
/// The statistics add up: every task is on time or a miss, drops are
/// misses, and the per-priority counts sum to the totals.
pub open spec fn summary_adds_up(r: SimResult) -> bool {
    &&& r.completed_on_time + r.deadline_miss_count == r.total_tasks
    &&& r.dropped_count <= r.deadline_miss_count
    &&& r.tasks_by_priority@[0] + r.tasks_by_priority@[1] + r.tasks_by_priority@[2]
            + r.tasks_by_priority@[3] + r.tasks_by_priority@[4] == r.total_tasks
    &&& r.misses_by_priority@[0] + r.misses_by_priority@[1] + r.misses_by_priority@[2]
            + r.misses_by_priority@[3] + r.misses_by_priority@[4] == r.deadline_miss_count
}

pub proof fn lemma_summary_consistent(tasks: Seq<Task>, sw: u32, makespan: i64, r: SimResult)
    requires
        summary_of(tasks, sw, makespan, r),
    ensures
        r.completed_on_time + r.deadline_miss_count == r.total_tasks,
        r.dropped_count <= r.deadline_miss_count,
        r.tasks_by_priority@[0] + r.tasks_by_priority@[1] + r.tasks_by_priority@[2]
            + r.tasks_by_priority@[3] + r.tasks_by_priority@[4] == r.total_tasks,
        r.misses_by_priority@[0] + r.misses_by_priority@[1] + r.misses_by_priority@[2]
            + r.misses_by_priority@[3] + r.misses_by_priority@[4] == r.deadline_miss_count,
{
    lemma_on_time_plus_misses(tasks);
    lemma_dropped_are_misses(tasks);
    let all = |tk: Task| true;
    lemma_bucket_sum(tasks, all, |b: int| in_bucket(b));
    lemma_all_count(tasks);
    lemma_bucket_sum(tasks, |tk: Task| is_miss(tk), |b: int| missed_in_bucket(b));
}

proof fn lemma_all_count(s: Seq<Task>)
    ensures
        count_tasks(s, |tk: Task| true) == s.len(),
    decreases s.len(),
{
    if s.len() > 0 {
        lemma_all_count(s.drop_last());
    }
}

fn summarize(tasks: &Vec<Task>, total_context_switches: u32, last_completion_time: i64) -> (r: SimResult)
    ensures
        summary_of(tasks@, total_context_switches, last_completion_time, r),
{
    let total_tasks = tasks.len();
    let mut completed_on_time: usize = 0;
    let mut dropped_count: usize = 0;
    let mut deadline_miss_count: usize = 0;
    let mut misses_by_priority: [usize; 5] = [0usize; 5];
    let mut tasks_by_priority: [usize; 5] = [0usize; 5];
    let mut i: usize = 0;
    while i < total_tasks
        invariant
            i <= total_tasks == tasks@.len(),
            completed_on_time == count_tasks(tasks@.take(i as int), |tk: Task| is_on_time(tk)),
            dropped_count == count_tasks(tasks@.take(i as int), |tk: Task| is_dropped(tk)),
            deadline_miss_count == count_tasks(tasks@.take(i as int), |tk: Task| is_miss(tk)),
            forall|b: int| 0 <= b < 5 ==> tasks_by_priority@[b] == count_tasks(tasks@.take(i as int), in_bucket(b)),
            forall|b: int| 0 <= b < 5 ==> misses_by_priority@[b] == count_tasks(tasks@.take(i as int), missed_in_bucket(b)),
        decreases total_tasks - i,
    {
        let tk = tasks[i];
        let ghost pre = tasks@.take(i as int);
        let ghost post = tasks@.take(i as int + 1);
        assert(post.drop_last() =~= pre);
        assert(post.last() == tk);
        proof {
            lemma_count_bound(pre, |tk: Task| is_on_time(tk));
            lemma_count_bound(pre, |tk: Task| is_dropped(tk));
            lemma_count_bound(pre, |tk: Task| is_miss(tk));
            assert forall|b: int| 0 <= b < 5 implies tasks_by_priority@[b] < total_tasks
                && misses_by_priority@[b] < total_tasks by {
                lemma_count_bound(pre, in_bucket(b));
                lemma_count_bound(pre, missed_in_bucket(b));
            }
        }
        let p_idx: usize = if tk.priority <= 1 { 0 } else if tk.priority - 1 > 4 { 4 } else { (tk.priority - 1) as usize };
        tasks_by_priority[p_idx] = tasks_by_priority[p_idx] + 1;
        if tk.dropped {
            dropped_count = dropped_count + 1;
            deadline_miss_count = deadline_miss_count + 1;
            misses_by_priority[p_idx] = misses_by_priority[p_idx] + 1;
        } else {
            match tk.finish_time {
                Some(f) => {
                    if f <= tk.deadline {
                        completed_on_time = completed_on_time + 1;
                    } else {
                        // finished, but late
                        deadline_miss_count = deadline_miss_count + 1;
                        misses_by_priority[p_idx] = misses_by_priority[p_idx] + 1;
                    }
                },
                None => {
                    // never finished and never dropped: counted as a miss
                    deadline_miss_count = deadline_miss_count + 1;
                    misses_by_priority[p_idx] = misses_by_priority[p_idx] + 1;
                },
            }
        }
        i = i + 1;
        proof {
            assert forall|b: int| 0 <= b < 5 implies tasks_by_priority@[b] == count_tasks(post, in_bucket(b))
                && misses_by_priority@[b] == count_tasks(post, missed_in_bucket(b)) by {
                assert(in_bucket(b)(tk) == (priority_bucket(tk) == b));
                assert(missed_in_bucket(b)(tk) == (!on_time(tk) && priority_bucket(tk) == b));
            }
        }
    }
    assert(tasks@.take(total_tasks as int) =~= tasks@);
    SimResult {
        total_tasks,
        completed_on_time,
        dropped_count,
        deadline_miss_count,
        total_context_switches,
        makespan: last_completion_time,
        misses_by_priority,
        tasks_by_priority,
    }
}

// ---------------------------------------------------------------------
// Simulation loop
// ---------------------------------------------------------------------

/// Magnitude bound on times handled by the simulation (about 2^60 units).
pub open spec fn time_in_range(x: int) -> bool {
    -0x1000_0000_0000_0000 <= x <= 0x1000_0000_0000_0000
}

/// The task's times are within the simulation's range.
pub open spec fn task_in_range(tk: Task) -> bool {
    time_in_range(tk.arrival_time as int) && time_in_range(tk.deadline as int)
        && time_in_range(tk.remaining_time as int)
}

/// The fields a simulation never changes.
pub open spec fn same_static(a: Task, b: Task) -> bool {
    &&& a.id == b.id
    &&& a.arrival_time == b.arrival_time
    &&& a.execution_time == b.execution_time
    &&& a.priority == b.priority
    &&& a.obstacle_distance == b.obstacle_distance
    &&& a.deadline == b.deadline
}

/// The latest deadline, and at least 0.
pub open spec fn max_deadline(tasks: Seq<Task>) -> int
    decreases tasks.len(),
{
    if tasks.len() == 0 {
        0
    } else {
        let m = max_deadline(tasks.drop_last());
        if tasks.last().deadline > m { tasks.last().deadline as int } else { m }
    }
}

/// The time at which the simulation stops at the latest: 50 ticks past
/// the latest deadline.
pub open spec fn horizon(tasks: Seq<Task>) -> int {
    max_deadline(tasks) + 50 * FIXED_ONE
}

/// Upper bound on the context switches of a run.
pub open spec fn switch_budget(tasks: Seq<Task>, num_cores: int) -> int {
    2 * num_cores * (horizon(tasks) / (FIXED_ONE as int) + 2)
}

/// What a run may be handed: times in range, and room for every context
/// switch in the `u32` counters.
pub open spec fn simulation_fits(tasks: Seq<Task>, num_cores: int) -> bool {
    &&& forall|i: int| 0 <= i < tasks.len() ==> task_in_range(#[trigger] tasks[i])
    &&& forall|i: int| 0 <= i < tasks.len() ==>
            (#[trigger] tasks[i]).context_switches_incurred + switch_budget(tasks, num_cores) <= u32::MAX
}

proof fn lemma_max_deadline(tasks: Seq<Task>)
    requires
        forall|i: int| 0 <= i < tasks.len() ==> task_in_range(#[trigger] tasks[i]),
    ensures
        forall|i: int| 0 <= i < tasks.len() ==> (#[trigger] tasks[i]).deadline <= max_deadline(tasks),
        0 <= max_deadline(tasks) <= 0x1000_0000_0000_0000,
    decreases tasks.len(),
{
    if tasks.len() > 0 {
        let pre = tasks.drop_last();
        assert forall|i: int| 0 <= i < pre.len() implies task_in_range(#[trigger] pre[i]) by {
            assert(pre[i] == tasks[i]);
        }
        lemma_max_deadline(pre);
        assert(task_in_range(tasks[tasks.len() - 1]));
        assert forall|i: int| 0 <= i < tasks.len() implies (#[trigger] tasks[i]).deadline <= max_deadline(tasks) by {
            if i < tasks.len() - 1 {
                assert(pre[i] == tasks[i]);
            }
        }
    }
}

/// Whether a run may be handed `tasks` on `num_cores` cores (see
/// `simulation_fits`).
pub fn fits_simulation(tasks: &[Task], num_cores: usize) -> (b: bool)
    ensures
        b == simulation_fits(tasks@, num_cores as int),
{
    let n = tasks.len();
    let lim: i64 = 0x1000_0000_0000_0000;
    let mut i: usize = 0;
    while i < n
        invariant
            i <= n == tasks@.len(),
            lim == 0x1000_0000_0000_0000,
            forall|q: int| 0 <= q < i ==> task_in_range(#[trigger] tasks@[q]),
        decreases n - i,
    {
        let tk = &tasks[i];
        if !(-lim <= tk.arrival_time && tk.arrival_time <= lim && -lim <= tk.deadline && tk.deadline <= lim
            && -lim <= tk.remaining_time && tk.remaining_time <= lim) {
            assert(!task_in_range(tasks@[i as int]));
            return false;
        }
        i = i + 1;
    }
    proof {
        lemma_max_deadline(tasks@);
    }
    let mut latest: i64 = 0;
    let mut j: usize = 0;
    while j < n
        invariant
            j <= n == tasks@.len(),
            latest == max_deadline(tasks@.take(j as int)),
            0 <= max_deadline(tasks@) <= 0x1000_0000_0000_0000,
            forall|q: int| 0 <= q < n ==> task_in_range(#[trigger] tasks@[q]),
        decreases n - j,
    {
        assert(tasks@.take(j as int + 1).drop_last() =~= tasks@.take(j as int));
        if tasks[j].deadline > latest {
            latest = tasks[j].deadline;
        }
        j = j + 1;
    }
    assert(tasks@.take(n as int) =~= tasks@);
    let horizon_ticks: u128 = ((latest + 50 * FIXED_ONE) / FIXED_ONE) as u128;
    proof {
        assert(0 <= latest + 50 * FIXED_ONE);
        vstd::arithmetic::div_mod::lemma_div_is_ordered(latest + 50 * FIXED_ONE, 0x1000_0000_0000_0000 + 50 * FIXED_ONE, FIXED_ONE as int);
        assert(2 * num_cores * (horizon_ticks + 2) <= 2 * 0x1_0000_0000_0000_0000int * 0x1_0000_0000_0000int) by (nonlinear_arith)
            requires
                num_cores <= 0x1_0000_0000_0000_0000int,
                horizon_ticks + 2 <= 0x1_0000_0000_0000int;
    }
    let budget: u128 = 2 * num_cores as u128 * (horizon_ticks + 2);
    assert(budget == switch_budget(tasks@, num_cores as int));
    let mut k: usize = 0;
    while k < n
        invariant
            k <= n == tasks@.len(),
            budget == switch_budget(tasks@, num_cores as int),
            budget <= 2 * 0x1_0000_0000_0000_0000int * 0x1_0000_0000_0000int,
            forall|q: int| 0 <= q < n ==> task_in_range(#[trigger] tasks@[q]),
            forall|q: int| 0 <= q < k ==>
                (#[trigger] tasks@[q]).context_switches_incurred + switch_budget(tasks@, num_cores as int) <= u32::MAX,
        decreases n - k,
    {
        if tasks[k].context_switches_incurred as u128 + budget > u32::MAX as u128 {
            return false;
        }
        k = k + 1;
    }
    true
}

/// The task order of admission: by arrival time, ties by index.
pub open spec fn arrival_key(tasks: Seq<Task>, i: usize) -> RankKey {
    RankKey { idx: i, score: tasks[i as int].arrival_time as i128, ttc: 0 }
}

/// `order` lists every task index below `n` exactly once.
pub open spec fn is_index_permutation(order: Seq<usize>, n: int) -> bool {
    &&& order.len() == n
    &&& order.no_duplicates()
    &&& forall|p: int| 0 <= p < n ==> #[trigger] order[p] < n
    &&& forall|i: usize| i < n ==> order.contains(i)
}

/// `order` is by non-decreasing arrival time.
pub open spec fn sorted_by_arrival(order: Seq<usize>, tasks: Seq<Task>) -> bool {
    forall|p: int, q: int| 0 <= p < q < order.len() ==>
        tasks[order[p] as int].arrival_time <= tasks[order[q] as int].arrival_time
}

fn arrival_order(tasks: &Vec<Task>) -> (order: Vec<usize>)
    ensures
        is_index_permutation(order@, tasks@.len() as int),
        sorted_by_arrival(order@, tasks@),
        admission_order(order@, tasks@),
{
    let n = tasks.len();
    let mut keys: Vec<RankKey> = Vec::new();
    let mut i: usize = 0;
    while i < n
        invariant
            i <= n == tasks@.len(),
            keys@.len() == i,
            forall|q: int| 0 <= q < i ==> #[trigger] keys@[q] == arrival_key(tasks@, q as usize),
        decreases n - i,
    {
        keys.push(RankKey { idx: i, score: tasks[i].arrival_time as i128, ttc: 0 });
        i = i + 1;
    }
    assert(distinct_tasks(keys@)) by {
        assert forall|a: int, b: int| 0 <= a < b < keys@.len() implies keys@[a].idx != keys@[b].idx by {
            assert(keys@[a] == arrival_key(tasks@, a as usize));
            assert(keys@[b] == arrival_key(tasks@, b as usize));
        }
    }
    let sorted = sort_keys(&keys, RankRule::ByScore);
    proof {
        lemma_by_score_locally_sorted_is_sorted(sorted@);
    }
    let mut order: Vec<usize> = Vec::new();
    let mut m: usize = 0;
    while m < sorted.len()
        invariant
            m <= sorted@.len(),
            order@.len() == m,
            forall|q: int| 0 <= q < m ==> #[trigger] order@[q] == sorted@[q].idx,
        decreases sorted@.len() - m,
    {
        order.push(sorted[m].idx);
        m = m + 1;
    }
    proof {
        let o = sorted@;
        assert forall|q: int| 0 <= q < o.len() implies #[trigger] o[q] == arrival_key(tasks@, o[q].idx) && o[q].idx < n by {
            assert(o.contains(o[q]));
            assert(keys@.contains(o[q]));
            let p = choose|p: int| 0 <= p < keys@.len() && keys@[p] == o[q];
            assert(keys@[p] == arrival_key(tasks@, p as usize));
        }
        assert forall|p: int| 0 <= p < n implies #[trigger] order@[p] < n by {
            assert(o[p] == arrival_key(tasks@, o[p].idx));
        }
        assert forall|a: int, b: int| 0 <= a < order@.len() && 0 <= b < order@.len() && a != b implies order@[a] != order@[b] by {
            if a < b {
                assert(o[a].idx != o[b].idx);
            } else {
                assert(o[b].idx != o[a].idx);
            }
        }
        assert forall|x: usize| x < n implies order@.contains(x) by {
            assert(keys@[x as int] == arrival_key(tasks@, x));
            assert(keys@.contains(keys@[x as int]));
            assert(o.contains(keys@[x as int]));
            let q = choose|q: int| 0 <= q < o.len() && o[q] == keys@[x as int];
            assert(order@[q] == x);
        }
        assert forall|p: int, q: int| 0 <= p < q < order@.len() implies
            tasks@[order@[p] as int].arrival_time <= tasks@[order@[q] as int].arrival_time by {
            assert(!ranks_after(RankRule::ByScore, o[p], o[q]));
            assert(o[p] == arrival_key(tasks@, o[p].idx));
            assert(o[q] == arrival_key(tasks@, o[q].idx));
        }
        assert forall|p: int, q: int| #![trigger order@[p], order@[q]] 0 <= p < q < order@.len() implies
            tasks@[order@[p] as int].arrival_time < tasks@[order@[q] as int].arrival_time
            || (tasks@[order@[p] as int].arrival_time == tasks@[order@[q] as int].arrival_time
                && order@[p] < order@[q]) by {
            assert(!ranks_after(RankRule::ByScore, o[p], o[q]));
            assert(o[p] == arrival_key(tasks@, o[p].idx));
            assert(o[q] == arrival_key(tasks@, o[q].idx));
            assert(o[p].idx != o[q].idx);
        }
    }
    order
}

/// Whether task `i` has been admitted: it is among the first `ptr` of `order`.
pub open spec fn admitted(order: Seq<usize>, ptr: int, i: usize) -> bool {
    order.take(ptr).contains(i)
}

/// The task marked as dropped at time `t`.
pub open spec fn marked_dropped(tk: Task, t: i64) -> Task {
    Task { dropped: true, dropped_at: Some(t), ..tk }
}

/// Only the drop bookkeeping of a task changed.
pub open spec fn drop_fields_only(a: Task, b: Task) -> bool {
    b == Task { dropped: b.dropped, dropped_at: b.dropped_at, ..a }
}

/// The number of `Started` events of a trace: one per core assignment.
pub open spec fn count_started(events: Seq<SimEvent>) -> nat
    decreases events.len(),
{
    if events.len() == 0 {
        0
    } else {
        count_started(events.drop_last()) + if events.last() is Started { 1nat } else { 0nat }
    }
}

/// `new_e` extends the trace `old_e` with events none of which is a
/// completion.
pub open spec fn appends_no_completion(old_e: Seq<SimEvent>, new_e: Seq<SimEvent>) -> bool {
    &&& old_e.len() <= new_e.len()
    &&& forall|q: int| 0 <= q < old_e.len() ==> #[trigger] new_e[q] == old_e[q]
    &&& forall|q: int| old_e.len() <= q < new_e.len() ==> !(#[trigger] new_e[q] is Completed)
}

/// `new_e` extends the trace `old_e` with completions at the end of the
/// tick at `t`, each of a task that ran out of work in it.
pub open spec fn appends_completions(
    old_e: Seq<SimEvent>,
    new_e: Seq<SimEvent>,
    tasks0: Seq<Task>,
    tasks1: Seq<Task>,
    t: int,
) -> bool {
    &&& old_e.len() <= new_e.len()
    &&& forall|q: int| 0 <= q < old_e.len() ==> #[trigger] new_e[q] == old_e[q]
    &&& forall|q: int| old_e.len() <= q < new_e.len() ==> (#[trigger] new_e[q] matches SimEvent::Completed { time, task_id }
            ==> time == t + FIXED_ONE && exists|i: int| 0 <= i < tasks1.len() && (#[trigger] tasks1[i]).id == task_id
                && completes_now(tasks0[i], tasks1[i]))
}

/// The number of `Preempted` events of a trace.
pub open spec fn count_preempted(events: Seq<SimEvent>) -> nat
    decreases events.len(),
{
    if events.len() == 0 {
        0
    } else {
        count_preempted(events.drop_last()) + if events.last() is Preempted { 1nat } else { 0nat }
    }
}

/// Whether an event starts a task on a core it preempted.
pub open spec fn is_preemptive_start(e: SimEvent) -> bool {
    e matches SimEvent::Started { preemptive, .. } && preemptive
}

/// The number of `Started` events of a trace that preempt a running task.
pub open spec fn count_preemptive_starts(events: Seq<SimEvent>) -> nat
    decreases events.len(),
{
    if events.len() == 0 {
        0
    } else {
        count_preemptive_starts(events.drop_last()) + if is_preemptive_start(events.last()) { 1nat } else { 0nat }
    }
}

proof fn lemma_count_started_push(events: Seq<SimEvent>, e: SimEvent)
    ensures
        count_started(events.push(e)) == count_started(events) + if e is Started { 1nat } else { 0nat },
        count_preempted(events.push(e)) == count_preempted(events) + if e is Preempted { 1nat } else { 0nat },
        count_preemptive_starts(events.push(e)) == count_preemptive_starts(events)
            + if is_preemptive_start(e) { 1nat } else { 0nat },
{
    assert(events.push(e).drop_last() =~= events);
}

/// The context switches the tasks have incurred, summed over all of them.
pub open spec fn switch_sum(tasks: Seq<Task>) -> int
    decreases tasks.len(),
{
    if tasks.len() == 0 {
        0
    } else {
        switch_sum(tasks.drop_last()) + tasks.last().context_switches_incurred
    }
}

/// Tasks that have incurred no context switch sum to none.
pub proof fn lemma_switch_sum_zero(tasks: Seq<Task>)
    requires
        forall|i: int| 0 <= i < tasks.len() ==> (#[trigger] tasks[i]).context_switches_incurred == 0,
    ensures
        switch_sum(tasks) == 0,
    decreases tasks.len(),
{
    if tasks.len() > 0 {
        assert forall|i: int| 0 <= i < tasks.drop_last().len() implies
            (#[trigger] tasks.drop_last()[i]).context_switches_incurred == 0 by {
            assert(tasks.drop_last()[i] == tasks[i]);
        }
        lemma_switch_sum_zero(tasks.drop_last());
        assert(tasks.last() == tasks[tasks.len() - 1]);
    }
}

proof fn lemma_switch_sum_update(tasks: Seq<Task>, i: int, tk: Task)
    requires
        0 <= i < tasks.len(),
    ensures
        switch_sum(tasks.update(i, tk)) == switch_sum(tasks) - tasks[i].context_switches_incurred
            + tk.context_switches_incurred,
    decreases tasks.len(),
{
    let u = tasks.update(i, tk);
    if i < tasks.len() - 1 {
        assert(u.drop_last() =~= tasks.drop_last().update(i, tk));
        lemma_switch_sum_update(tasks.drop_last(), i, tk);
    } else {
        assert(u.drop_last() =~= tasks.drop_last());
    }
}

proof fn lemma_switch_sum_same(a: Seq<Task>, b: Seq<Task>)
    requires
        a.len() == b.len(),
        forall|i: int| 0 <= i < a.len() ==> (#[trigger] a[i]).context_switches_incurred == b[i].context_switches_incurred,
    ensures
        switch_sum(a) == switch_sum(b),
    decreases a.len(),
{
    if a.len() > 0 {
        assert forall|i: int| 0 <= i < a.drop_last().len() implies (#[trigger] a.drop_last()[i]).context_switches_incurred
            == b.drop_last()[i].context_switches_incurred by {
            assert(a.drop_last()[i] == a[i] && b.drop_last()[i] == b[i]);
        }
        lemma_switch_sum_same(a.drop_last(), b.drop_last());
        assert(a.last() == a[a.len() - 1]);
    }
}

/// Marks every ready task whose laxity is negative as dropped, frees any
/// core that was running it, and keeps the others in the ready queue.
fn drop_negative_laxity(
    tasks: &mut Vec<Task>,
    ready: &mut Vec<usize>,
    cores: &mut Vec<Option<usize>>,
    overhead: &mut Vec<i64>,
    events: &mut Vec<SimEvent>,
    t: i64,
    Ghost(g): Ghost<SimState>,
)
    requires
        indices_below(old(ready)@, old(tasks)@.len() as int),
        old(ready)@.no_duplicates(),
        old(cores)@.len() == old(overhead)@.len(),
        g.tasks == old(tasks)@,
        g.ready == old(ready)@,
        g.cores == old(cores)@,
        g.overhead == old(overhead)@,
        g.events == old(events)@,
    ensures
        final(tasks)@ == drop_pass(g, t as int).tasks,
        final(ready)@ == drop_pass(g, t as int).ready,
        final(cores)@ == drop_pass(g, t as int).cores,
        final(overhead)@ == drop_pass(g, t as int).overhead,
        final(events)@ == drop_pass(g, t as int).events,
        final(ready)@ == nonnegative_laxity(old(ready)@, old(tasks)@, t as int),
        final(tasks)@.len() == old(tasks)@.len(),
        forall|i: usize| i < old(tasks)@.len() ==> {
            let was = #[trigger] old(tasks)@[i as int];
            let now = final(tasks)@[i as int];
            if old(ready)@.contains(i) && spec_laxity(was, t as int) < 0 {
                now == marked_dropped(was, t)
            } else {
                now == was
            }
        },
        final(cores)@.len() == old(cores)@.len(),
        final(overhead)@.len() == old(overhead)@.len(),
        count_started(final(events)@) == count_started(old(events)@),
        count_preempted(final(events)@) == count_preempted(old(events)@),
        count_preemptive_starts(final(events)@) == count_preemptive_starts(old(events)@),
        appends_no_completion(old(events)@, final(events)@),
        forall|c: int| 0 <= c < old(cores)@.len() ==> {
            let r = #[trigger] old(cores)@[c];
            if r matches Some(x) && old(ready)@.contains(x) && x < old(tasks)@.len()
                && spec_laxity(old(tasks)@[x as int], t as int) < 0 {
                final(cores)@[c] is None && final(overhead)@[c] == 0
            } else {
                final(cores)@[c] == r && final(overhead)@[c] == old(overhead)@[c]
            }
        },
{
    let ghost tasks0 = tasks@;
    let ghost ready0 = ready@;
    let ghost cores0 = cores@;
    let ghost overhead0 = overhead@;
    let ghost events0 = events@;
    proof {
        lemma_nonnegative_laxity_props(ready0, tasks0, t as int);
    }
    let mut kept: Vec<usize> = Vec::new();
    let mut i: usize = 0;
    let n = ready.len();
    while i < n
        invariant
            i <= n == ready0.len(),
            ready@ == ready0,
            tasks@.len() == tasks0.len(),
            indices_below(ready0, tasks0.len() as int),
            ready0.no_duplicates(),
            kept@ == nonnegative_laxity(ready0.take(i as int), tasks0, t as int),
            cores@.len() == cores0.len(),
            overhead@.len() == cores0.len(),
            count_started(events@) == count_started(events0),
            count_preempted(events@) == count_preempted(events0),
            count_preemptive_starts(events@) == count_preemptive_starts(events0),
            appends_no_completion(events0, events@),
            g.tasks == tasks0,
            g.ready == ready0,
            g.cores == cores0,
            g.overhead == overhead0,
            g.events == events0,
            tasks@ == drop_upto(g, ready0, i as int, t as int).tasks,
            kept@ == drop_upto(g, ready0, i as int, t as int).ready,
            cores@ == drop_upto(g, ready0, i as int, t as int).cores,
            overhead@ == drop_upto(g, ready0, i as int, t as int).overhead,
            events@ == drop_upto(g, ready0, i as int, t as int).events,
            forall|j: usize| j < tasks0.len() ==> {
                let was = #[trigger] tasks0[j as int];
                let now = tasks@[j as int];
                if ready0.take(i as int).contains(j) && spec_laxity(was, t as int) < 0 {
                    now == marked_dropped(was, t)
                } else {
                    now == was
                }
            },
            forall|c: int| 0 <= c < cores0.len() ==> {
                let r = #[trigger] cores0[c];
                if r matches Some(x) && ready0.take(i as int).contains(x) && x < tasks0.len()
                    && spec_laxity(tasks0[x as int], t as int) < 0 {
                    cores@[c] is None && overhead@[c] == 0
                } else {
                    cores@[c] == r && overhead@[c] == overhead0[c]
                }
            },
        decreases n - i,
    {
        let idx = ready[i];
        assert(ready0.take(i as int + 1).drop_last() =~= ready0.take(i as int));
        proof {
            crate::scheduler::lemma_drop_last_contains(ready0.take(i as int + 1));
            assert(!ready0.take(i as int).contains(idx)) by {
                if ready0.take(i as int).contains(idx) {
                    let k = choose|k: int| 0 <= k < i && ready0.take(i as int)[k] == idx;
                    assert(ready0[k] == ready0[i as int]);
                }
            }
        }
        let ghost p = drop_upto(g, ready0, i as int, t as int);
        if tasks[idx].laxity(t) < 0 {
            let mut tk = tasks[idx];
            tk.dropped = true;
            tk.dropped_at = Some(t);
            assert(tk == marked_dropped(p.tasks[idx as int], t));
            tasks.set(idx, tk);
            let mut ci: usize = 0;
            let ghost cores_mid = cores@;
            let ghost overhead_mid = overhead@;
            while ci < cores.len()
                invariant
                    ci <= cores@.len() == cores_mid.len() == overhead@.len() == overhead_mid.len(),
                    forall|c: int| 0 <= c < cores_mid.len() ==> {
                        let r = #[trigger] cores_mid[c];
                        if c < ci && r == Some(idx) {
                            cores@[c] is None && overhead@[c] == 0
                        } else {
                            cores@[c] == r && overhead@[c] == overhead_mid[c]
                        }
                    },
                decreases cores_mid.len() - ci,
            {
                if cores[ci] == Some(idx) {
                    cores.set(ci, None);
                    overhead.set(ci, 0);
                }
                ci = ci + 1;
            }
            proof {
                lemma_count_started_push(events@, SimEvent::Dropped { time: t, task_id: tk.id, reason: DropReason::NegativeLaxity });
            }
            events.push(SimEvent::Dropped { time: t, task_id: tk.id, reason: DropReason::NegativeLaxity });
            proof {
                let q = crate::machine::drop_task(p, idx, t as int);
                assert(cores@ =~= q.cores);
                assert(overhead@ =~= q.overhead);
                assert(events@ =~= q.events);
            }
        } else {
            kept.push(idx);
        }
        proof {
            let pre = ready0.take(i as int);
            let post = ready0.take(i as int + 1);
            assert forall|y: usize| post.contains(y) <==> pre.contains(y) || y == idx by {}
            assert forall|j: usize| j < tasks0.len() implies {
                let was = #[trigger] tasks0[j as int];
                let now = tasks@[j as int];
                if post.contains(j) && spec_laxity(was, t as int) < 0 {
                    now == marked_dropped(was, t)
                } else {
                    now == was
                }
            } by {
            }
        }
        i = i + 1;
    }
    assert(ready0.take(n as int) =~= ready0);
    *ready = kept;
}

/// Task `x` occupies some core.
pub open spec fn on_some_core(cores: Seq<Option<usize>>, x: usize) -> bool {
    exists|c: int| 0 <= c < cores.len() && #[trigger] cores[c] == Some(x)
}

/// No task occupies two cores.
pub open spec fn cores_distinct(cores: Seq<Option<usize>>) -> bool {
    forall|a: int, b: int| 0 <= a < cores.len() && 0 <= b < cores.len() && a != b && cores[a] is Some
        ==> cores[a] != cores[b]
}

/// Every occupied core holds a task below `n`.
pub open spec fn cores_hold_below(cores: Seq<Option<usize>>, n: int) -> bool {
    forall|c: int| 0 <= c < cores.len() ==> (#[trigger] cores[c] matches Some(x) ==> x < n)
}

/// The preemption-severity test, as the task model states it: the
/// candidate's critical laxity exceeds the critical coefficient plus twice
/// the running task's remaining time.
pub open spec fn spec_should_preempt(candidate_laxity: int, critical_coefficient: int, running_remaining: int) -> bool {
    candidate_laxity > critical_coefficient + 2 * running_remaining
}

fn should_preempt(candidate_laxity: i128, critical_coefficient: i64, running_remaining: i64) -> (r: bool)
    requires
        -0x10_0000_0000_0000_0000_0000_0000i128 <= candidate_laxity <= 0x10_0000_0000_0000_0000_0000_0000i128,
    ensures
        r == spec_should_preempt(candidate_laxity as int, critical_coefficient as int, running_remaining as int),
{
    candidate_laxity > critical_coefficient as i128 + 2 * running_remaining as i128
}

/// The best-ranked task that is not on any core.
fn first_waiting(ranked: &Vec<usize>, cores: &Vec<Option<usize>>) -> (r: Option<usize>)
    ensures
        r is None ==> forall|j: int| 0 <= j < ranked@.len() ==> on_some_core(cores@, #[trigger] ranked@[j]),
        r matches Some(x) ==> exists|j: int| 0 <= j < ranked@.len() && ranked@[j] == x
            && !on_some_core(cores@, x)
            && forall|k: int| 0 <= k < j ==> on_some_core(cores@, #[trigger] ranked@[k]),
        r == first_waiting_spec(ranked@, cores@),
{
    let mut j: usize = 0;
    while j < ranked.len()
        invariant
            j <= ranked@.len(),
            forall|k: int| 0 <= k < j ==> on_some_core(cores@, #[trigger] ranked@[k]),
            first_waiting_spec(ranked@, cores@) == first_waiting_from(ranked@, cores@, j as int),
        decreases ranked@.len() - j,
    {
        let x = ranked[j];
        let mut c: usize = 0;
        let mut found = false;
        while c < cores.len()
            invariant
                c <= cores@.len(),
                found ==> on_some_core(cores@, x),
                !found ==> forall|d: int| 0 <= d < c ==> cores@[d] != Some(x),
            decreases cores@.len() - c,
        {
            if cores[c] == Some(x) {
                found = true;
            }
            c = c + 1;
        }
        if !found {
            assert(!on_some_core(cores@, x));
            return Some(x);
        }
        j = j + 1;
    }
    None
}

/// Only the start time and the context-switch count of a task changed.
pub open spec fn dispatch_only(a: Task, b: Task) -> bool {
    &&& b == Task { start_time: b.start_time, context_switches_incurred: b.context_switches_incurred, ..a }
    &&& a.context_switches_incurred <= b.context_switches_incurred
    &&& a.start_time is Some ==> b.start_time == a.start_time
}

/// Every core whose task changed holds a task that has started.
pub open spec fn dispatched_started(cores0: Seq<Option<usize>>, cores1: Seq<Option<usize>>, tasks1: Seq<Task>) -> bool {
    forall|c: int| 0 <= c < cores0.len() ==> (#[trigger] cores1[c] != cores0[c]
        ==> (cores1[c] matches Some(x) && tasks1[x as int].start_time is Some))
}

/// Puts task `cand` on core `ci`: it pays the context-switch cost there.
fn dispatch(
    tasks: &mut Vec<Task>,
    cores: &mut Vec<Option<usize>>,
    overhead: &mut Vec<i64>,
    events: &mut Vec<SimEvent>,
    total_context_switches: &mut u32,
    ci: usize,
    cand: usize,
    t: i64,
    switch_cost: i64,
    preemptive: bool,
)
    requires
        ci < old(cores)@.len() == old(overhead)@.len(),
        cand < old(tasks)@.len(),
        *old(total_context_switches) < u32::MAX,
        old(tasks)@[cand as int].context_switches_incurred < u32::MAX,
    ensures
        final(cores)@ == old(cores)@.update(ci as int, Some(cand)),
        final(overhead)@ == old(overhead)@.update(ci as int, switch_cost),
        *final(total_context_switches) == *old(total_context_switches) + 1,
        count_started(final(events)@) == count_started(old(events)@) + 1,
        count_preempted(final(events)@) == count_preempted(old(events)@),
        count_preemptive_starts(final(events)@) == count_preemptive_starts(old(events)@) + if preemptive { 1nat } else { 0nat },
        final(tasks)@.len() == old(tasks)@.len(),
        forall|i: int| 0 <= i < old(tasks)@.len() && i != cand ==> #[trigger] final(tasks)@[i] == old(tasks)@[i],
        dispatch_only(old(tasks)@[cand as int], final(tasks)@[cand as int]),
        final(tasks)@[cand as int].context_switches_incurred == old(tasks)@[cand as int].context_switches_incurred + 1,
        switch_sum(final(tasks)@) == switch_sum(old(tasks)@) + 1,
        final(tasks)@[cand as int].start_time == (if old(tasks)@[cand as int].start_time is None {
            Some(t)
        } else {
            old(tasks)@[cand as int].start_time
        }),
        final(events)@ == old(events)@.push(
            SimEvent::Started { time: t, task_id: old(tasks)@[cand as int].id, core: ci, preemptive },
        ),
{
    cores.set(ci, Some(cand));
    let mut tk = tasks[cand];
    if tk.start_time.is_none() {
        tk.start_time = Some(t);
    }
    // every assignment, also to an idle core, pays the context-switch cost
    overhead.set(ci, switch_cost);
    *total_context_switches = *total_context_switches + 1;
    tk.context_switches_incurred = tk.context_switches_incurred + 1;
    let ghost before = tasks@;
    tasks.set(cand, tk);
    proof {
        lemma_switch_sum_update(before, cand as int, tk);
        lemma_count_started_push(events@, SimEvent::Started { time: t, task_id: tk.id, core: ci, preemptive });
    }
    events.push(SimEvent::Started { time: t, task_id: tk.id, core: ci, preemptive });
}

/// A task's deadline and remaining time are small enough for laxity arithmetic.
pub open spec fn laxity_fields_bounded(tk: Task) -> bool {
    -0x4000_0000_0000_0000 <= tk.deadline <= 0x4000_0000_0000_0000
        && -0x4000_0000_0000_0000 <= tk.remaining_time <= 0x4000_0000_0000_0000
}

/// What the dispatching passes of one tick may change.
pub open spec fn dispatch_pass_post(
    tasks0: Seq<Task>,
    tasks1: Seq<Task>,
    cores0: Seq<Option<usize>>,
    cores1: Seq<Option<usize>>,
    total0: u32,
    total1: u32,
    ranked: Seq<usize>,
) -> bool {
    &&& tasks1.len() == tasks0.len()
    &&& forall|i: int| 0 <= i < tasks0.len() ==> dispatch_only(#[trigger] tasks0[i], tasks1[i])
    &&& forall|i: int| 0 <= i < tasks0.len() ==>
            (#[trigger] tasks1[i]).context_switches_incurred - tasks0[i].context_switches_incurred <= total1 - total0
    &&& total0 <= total1 <= total0 + cores0.len()
    &&& cores1.len() == cores0.len()
    &&& cores_distinct(cores1)
    &&& cores_hold_below(cores1, tasks0.len() as int)
    &&& forall|c: int| 0 <= c < cores0.len() ==> (cores0[c] is Some ==> (#[trigger] cores1[c]) is Some)
    &&& forall|c: int| 0 <= c < cores0.len() ==> (#[trigger] cores1[c] != cores0[c] ==> (cores1[c] matches Some(x) && ranked.contains(x)))
}

/// A dispatching pass only sets the start time of a task that had none, to
/// the current tick, and only for a ranked task.
pub open spec fn starts_only_ranked(tasks0: Seq<Task>, tasks1: Seq<Task>, ranked: Seq<usize>, t: i64) -> bool {
    forall|i: int| 0 <= i < tasks0.len() ==> (#[trigger] tasks1[i]).start_time == tasks0[i].start_time
        || (tasks0[i].start_time is None && tasks1[i].start_time == Some(t) && ranked.contains(i as usize))
}

/// Pass 4: for each busy core not in the middle of a switch, the best
/// waiting candidate takes over when the preemption test holds.
fn preempt_running(
    tasks: &mut Vec<Task>,
    cores: &mut Vec<Option<usize>>,
    overhead: &mut Vec<i64>,
    events: &mut Vec<SimEvent>,
    total_context_switches: &mut u32,
    ranked: &Vec<usize>,
    t: i64,
    config: &SimConfig,
    Ghost(room): Ghost<int>,
    Ghost(g): Ghost<SimState>,
)
    requires
        old(cores)@.len() == old(overhead)@.len(),
        indices_below(ranked@, old(tasks)@.len() as int),
        cores_distinct(old(cores)@),
        cores_hold_below(old(cores)@, old(tasks)@.len() as int),
        g.tasks == old(tasks)@,
        g.cores == old(cores)@,
        g.overhead == old(overhead)@,
        g.events == old(events)@,
        g.total_context_switches == *old(total_context_switches),
        forall|i: int| 0 <= i < old(tasks)@.len() ==> laxity_fields_bounded(#[trigger] old(tasks)@[i]),
        -0x4000_0000_0000_0000 <= t <= 0x4000_0000_0000_0000,
        old(cores)@.len() <= room,
        *old(total_context_switches) + room <= u32::MAX,
        forall|i: int| 0 <= i < old(tasks)@.len() ==> (#[trigger] old(tasks)@[i]).context_switches_incurred + room <= u32::MAX,
    ensures
        dispatch_pass_post(old(tasks)@, final(tasks)@, old(cores)@, final(cores)@,
            *old(total_context_switches), *final(total_context_switches), ranked@),
        final(overhead)@.len() == old(overhead)@.len(),
        count_started(final(events)@) - count_started(old(events)@)
            == *final(total_context_switches) - *old(total_context_switches),
        starts_only_ranked(old(tasks)@, final(tasks)@, ranked@, t),
        dispatched_started(old(cores)@, final(cores)@, final(tasks)@),
        switch_sum(final(tasks)@) - switch_sum(old(tasks)@) == *final(total_context_switches) - *old(total_context_switches),
        count_preemptive_starts(final(events)@) - count_preempted(final(events)@)
            == count_preemptive_starts(old(events)@) - count_preempted(old(events)@),
        appends_no_completion(old(events)@, final(events)@),
        final(tasks)@ == preempt_upto(g, ranked@, old(cores)@.len() as int, t as int, *config).tasks,
        final(cores)@ == preempt_upto(g, ranked@, old(cores)@.len() as int, t as int, *config).cores,
        final(overhead)@ == preempt_upto(g, ranked@, old(cores)@.len() as int, t as int, *config).overhead,
        final(events)@ == preempt_upto(g, ranked@, old(cores)@.len() as int, t as int, *config).events,
        *final(total_context_switches) == preempt_upto(g, ranked@, old(cores)@.len() as int, t as int, *config).total_context_switches,
{
    let ghost tasks0 = tasks@;
    let ghost cores0 = cores@;
    let ghost total0 = *total_context_switches;
    let ghost events0 = events@;
    let n = cores.len();
    let mut core_idx: usize = 0;
    while core_idx < n
        invariant
            core_idx <= n == cores@.len() == overhead@.len() == cores0.len(),
            indices_below(ranked@, tasks0.len() as int),
            g.tasks == tasks0,
            g.cores == cores0,
            g.events == events0,
            g.total_context_switches == total0,
            tasks@ == preempt_upto(g, ranked@, core_idx as int, t as int, *config).tasks,
            cores@ == preempt_upto(g, ranked@, core_idx as int, t as int, *config).cores,
            overhead@ == preempt_upto(g, ranked@, core_idx as int, t as int, *config).overhead,
            events@ == preempt_upto(g, ranked@, core_idx as int, t as int, *config).events,
            *total_context_switches == preempt_upto(g, ranked@, core_idx as int, t as int, *config).total_context_switches,
            forall|i: int| 0 <= i < tasks0.len() ==> laxity_fields_bounded(#[trigger] tasks0[i]),
            -0x4000_0000_0000_0000 <= t <= 0x4000_0000_0000_0000,
            n <= room,
            total0 + room <= u32::MAX,
            forall|i: int| 0 <= i < tasks0.len() ==> (#[trigger] tasks0[i]).context_switches_incurred + room <= u32::MAX,
            total0 <= *total_context_switches <= total0 + core_idx,
            count_started(events@) - count_started(events0) == *total_context_switches - total0,
            starts_only_ranked(tasks0, tasks@, ranked@, t),
            dispatched_started(cores0, cores@, tasks@),
            switch_sum(tasks@) - switch_sum(tasks0) == *total_context_switches - total0,
            count_preemptive_starts(events@) - count_preempted(events@)
                == count_preemptive_starts(events0) - count_preempted(events0),
            appends_no_completion(events0, events@),
            tasks@.len() == tasks0.len(),
            forall|i: int| 0 <= i < tasks0.len() ==> dispatch_only(#[trigger] tasks0[i], tasks@[i]),
            forall|i: int| 0 <= i < tasks0.len() ==>
                (#[trigger] tasks@[i]).context_switches_incurred - tasks0[i].context_switches_incurred
                    <= *total_context_switches - total0,
            cores_distinct(cores@),
            cores_hold_below(cores@, tasks0.len() as int),
            forall|c: int| 0 <= c < n ==> (cores0[c] is Some ==> (#[trigger] cores@[c]) is Some),
            forall|c: int| 0 <= c < n ==> (#[trigger] cores@[c] != cores0[c] ==> (cores@[c] matches Some(x) && ranked@.contains(x))),
        decreases n - core_idx,
    {
        let ghost p = preempt_upto(g, ranked@, core_idx as int, t as int, *config);
        if overhead[core_idx] > 0 {
            // mid-switch; not eligible for re-evaluation
        } else if let Some(running_idx) = cores[core_idx] {
            let candidate = first_waiting(ranked, cores);
            if let Some(cand_idx) = candidate {
                proof {
                    let j = choose|j: int| 0 <= j < ranked@.len() && ranked@[j] == cand_idx
                        && !on_some_core(cores@, cand_idx)
                        && forall|k: int| 0 <= k < j ==> on_some_core(cores@, #[trigger] ranked@[k]);
                    assert(ranked@.contains(cand_idx));
                    assert(laxity_fields_bounded(tasks0[cand_idx as int]));
                    assert(dispatch_only(tasks0[cand_idx as int], tasks@[cand_idx as int]));
                    assert(dispatch_only(tasks0[running_idx as int], tasks@[running_idx as int]));
                }
                let cand_laxity = tasks[cand_idx].laxity(t);
                let running_remaining = tasks[running_idx].remaining_time;
                if should_preempt(cand_laxity, config.critical_coefficient, running_remaining) {
                    proof {
                        lemma_count_started_push(events@,
                            SimEvent::Preempted { time: t, task_id: tasks@[running_idx as int].id, core: core_idx });
                    }
                    events.push(SimEvent::Preempted { time: t, task_id: tasks[running_idx].id, core: core_idx });
                    let ghost tasks_mid = tasks@;
                    let ghost cores_mid = cores@;
                    let ghost total_mid = *total_context_switches;
                    proof {
                        assert(dispatch_only(tasks0[cand_idx as int], tasks@[cand_idx as int]));
                    }
                    dispatch(tasks, cores, overhead, events, total_context_switches, core_idx, cand_idx, t,
                        config.context_switch_cost, true);
                    proof {
                        let noted = SimState {
                            events: p.events.push(
                                SimEvent::Preempted { time: t, task_id: p.tasks[running_idx as int].id, core: core_idx },
                            ),
                            ..p
                        };
                        let q = dispatch_state(noted, core_idx as int, cand_idx, t as int, config.context_switch_cost, true);
                        assert(tasks@ =~= q.tasks) by {
                            assert forall|i: int| 0 <= i < tasks@.len() implies tasks@[i] == q.tasks[i] by {
                                if i != cand_idx {
                                    assert(tasks@[i] == tasks_mid[i]);
                                }
                            }
                        }
                        assert(cores@ =~= q.cores);
                        assert(overhead@ =~= q.overhead);
                        assert(events@ =~= q.events);
                        assert(preempt_core(p, ranked@, core_idx as int, t as int, *config) == q);
                    }
                    proof {
                        assert forall|i: int| 0 <= i < tasks0.len() implies dispatch_only(#[trigger] tasks0[i], tasks@[i])
                            && tasks@[i].context_switches_incurred - tasks0[i].context_switches_incurred
                                <= *total_context_switches - total0 by {
                            if i != cand_idx {
                                assert(tasks@[i] == tasks_mid[i]);
                            }
                        }
                        assert forall|a: int, b: int| 0 <= a < cores@.len() && 0 <= b < cores@.len() && a != b && cores@[a] is Some
                            implies cores@[a] != cores@[b] by {
                            if a == core_idx {
                                assert(cores_mid[b] != Some(cand_idx));
                            } else if b == core_idx {
                                assert(cores_mid[a] != Some(cand_idx));
                            } else {
                                assert(cores@[a] == cores_mid[a] && cores@[b] == cores_mid[b]);
                            }
                        }
                    }
                }
            }
        }
        core_idx = core_idx + 1;
    }
}

/// Pass 5: every idle core not in the middle of a switch takes the best
/// waiting candidate.
fn fill_idle(
    tasks: &mut Vec<Task>,
    cores: &mut Vec<Option<usize>>,
    overhead: &mut Vec<i64>,
    events: &mut Vec<SimEvent>,
    total_context_switches: &mut u32,
    ranked: &Vec<usize>,
    t: i64,
    config: &SimConfig,
    Ghost(room): Ghost<int>,
    Ghost(g): Ghost<SimState>,
)
    requires
        old(cores)@.len() == old(overhead)@.len(),
        g.tasks == old(tasks)@,
        g.cores == old(cores)@,
        g.overhead == old(overhead)@,
        g.events == old(events)@,
        g.total_context_switches == *old(total_context_switches),
        indices_below(ranked@, old(tasks)@.len() as int),
        cores_distinct(old(cores)@),
        cores_hold_below(old(cores)@, old(tasks)@.len() as int),
        old(cores)@.len() <= room,
        *old(total_context_switches) + room <= u32::MAX,
        forall|i: int| 0 <= i < old(tasks)@.len() ==> (#[trigger] old(tasks)@[i]).context_switches_incurred + room <= u32::MAX,
    ensures
        dispatch_pass_post(old(tasks)@, final(tasks)@, old(cores)@, final(cores)@,
            *old(total_context_switches), *final(total_context_switches), ranked@),
        final(overhead)@.len() == old(overhead)@.len(),
        count_started(final(events)@) - count_started(old(events)@)
            == *final(total_context_switches) - *old(total_context_switches),
        starts_only_ranked(old(tasks)@, final(tasks)@, ranked@, t),
        dispatched_started(old(cores)@, final(cores)@, final(tasks)@),
        switch_sum(final(tasks)@) - switch_sum(old(tasks)@) == *final(total_context_switches) - *old(total_context_switches),
        count_preemptive_starts(final(events)@) - count_preempted(final(events)@)
            == count_preemptive_starts(old(events)@) - count_preempted(old(events)@),
        appends_no_completion(old(events)@, final(events)@),
        final(tasks)@ == fill_upto(g, ranked@, old(cores)@.len() as int, t as int, *config).tasks,
        final(cores)@ == fill_upto(g, ranked@, old(cores)@.len() as int, t as int, *config).cores,
        final(overhead)@ == fill_upto(g, ranked@, old(cores)@.len() as int, t as int, *config).overhead,
        final(events)@ == fill_upto(g, ranked@, old(cores)@.len() as int, t as int, *config).events,
        *final(total_context_switches) == fill_upto(g, ranked@, old(cores)@.len() as int, t as int, *config).total_context_switches,
{
    let ghost tasks0 = tasks@;
    let ghost cores0 = cores@;
    let ghost total0 = *total_context_switches;
    let ghost events0 = events@;
    let n = cores.len();
    let mut core_idx: usize = 0;
    while core_idx < n
        invariant
            core_idx <= n == cores@.len() == overhead@.len() == cores0.len(),
            indices_below(ranked@, tasks0.len() as int),
            g.tasks == tasks0,
            g.cores == cores0,
            g.events == events0,
            g.total_context_switches == total0,
            tasks@ == fill_upto(g, ranked@, core_idx as int, t as int, *config).tasks,
            cores@ == fill_upto(g, ranked@, core_idx as int, t as int, *config).cores,
            overhead@ == fill_upto(g, ranked@, core_idx as int, t as int, *config).overhead,
            events@ == fill_upto(g, ranked@, core_idx as int, t as int, *config).events,
            *total_context_switches == fill_upto(g, ranked@, core_idx as int, t as int, *config).total_context_switches,
            n <= room,
            total0 + room <= u32::MAX,
            forall|i: int| 0 <= i < tasks0.len() ==> (#[trigger] tasks0[i]).context_switches_incurred + room <= u32::MAX,
            total0 <= *total_context_switches <= total0 + core_idx,
            count_started(events@) - count_started(events0) == *total_context_switches - total0,
            starts_only_ranked(tasks0, tasks@, ranked@, t),
            dispatched_started(cores0, cores@, tasks@),
            switch_sum(tasks@) - switch_sum(tasks0) == *total_context_switches - total0,
            count_preemptive_starts(events@) - count_preempted(events@)
                == count_preemptive_starts(events0) - count_preempted(events0),
            appends_no_completion(events0, events@),
            tasks@.len() == tasks0.len(),
            forall|i: int| 0 <= i < tasks0.len() ==> dispatch_only(#[trigger] tasks0[i], tasks@[i]),
            forall|i: int| 0 <= i < tasks0.len() ==>
                (#[trigger] tasks@[i]).context_switches_incurred - tasks0[i].context_switches_incurred
                    <= *total_context_switches - total0,
            cores_distinct(cores@),
            cores_hold_below(cores@, tasks0.len() as int),
            forall|c: int| 0 <= c < n ==> (cores0[c] is Some ==> (#[trigger] cores@[c]) is Some),
            forall|c: int| 0 <= c < n ==> (#[trigger] cores@[c] != cores0[c] ==> (cores@[c] matches Some(x) && ranked@.contains(x))),
        decreases n - core_idx,
    {
        let ghost p = fill_upto(g, ranked@, core_idx as int, t as int, *config);
        if overhead[core_idx] > 0 || cores[core_idx].is_some() {
        } else if let Some(cand_idx) = first_waiting(ranked, cores) {
            let ghost tasks_mid = tasks@;
            let ghost cores_mid = cores@;
            proof {
                let j = choose|j: int| 0 <= j < ranked@.len() && ranked@[j] == cand_idx
                    && !on_some_core(cores@, cand_idx)
                    && forall|k: int| 0 <= k < j ==> on_some_core(cores@, #[trigger] ranked@[k]);
                assert(ranked@.contains(cand_idx));
                assert(dispatch_only(tasks0[cand_idx as int], tasks@[cand_idx as int]));
            }
            dispatch(tasks, cores, overhead, events, total_context_switches, core_idx, cand_idx, t,
                config.context_switch_cost, false);
            proof {
                let q = dispatch_state(p, core_idx as int, cand_idx, t as int, config.context_switch_cost, false);
                assert(tasks@ =~= q.tasks) by {
                    assert forall|i: int| 0 <= i < tasks@.len() implies tasks@[i] == q.tasks[i] by {
                        if i != cand_idx {
                            assert(tasks@[i] == tasks_mid[i]);
                        }
                    }
                }
                assert(cores@ =~= q.cores);
                assert(overhead@ =~= q.overhead);
                assert(events@ =~= q.events);
                assert(fill_core(p, ranked@, core_idx as int, t as int, *config) == q);
            }
            proof {
                assert forall|i: int| 0 <= i < tasks0.len() implies dispatch_only(#[trigger] tasks0[i], tasks@[i])
                    && tasks@[i].context_switches_incurred - tasks0[i].context_switches_incurred
                        <= *total_context_switches - total0 by {
                    if i != cand_idx {
                        assert(tasks@[i] == tasks_mid[i]);
                    }
                }
                assert forall|a: int, b: int| 0 <= a < cores@.len() && 0 <= b < cores@.len() && a != b && cores@[a] is Some
                    implies cores@[a] != cores@[b] by {
                    if a == core_idx {
                        assert(cores_mid[b] != Some(cand_idx));
                    } else if b == core_idx {
                        assert(cores_mid[a] != Some(cand_idx));
                    } else {
                        assert(cores@[a] == cores_mid[a] && cores@[b] == cores_mid[b]);
                    }
                }
            }
        }
        core_idx = core_idx + 1;
    }
}

/// The task ran out of work in this step.
pub open spec fn completes_now(a: Task, b: Task) -> bool {
    b.remaining_time != a.remaining_time && b.remaining_time <= 0
}

/// What executing one tick may do to a task: run it for one tick and,
/// when no work is left, complete it at the end of the tick.
pub open spec fn executed_only(a: Task, b: Task, t: int) -> bool {
    &&& b == Task { remaining_time: b.remaining_time, completed: b.completed, finish_time: b.finish_time, ..a }
    &&& b.remaining_time == a.remaining_time ==> b == a
    &&& b.remaining_time != a.remaining_time ==> {
        &&& b.remaining_time == a.remaining_time - FIXED_ONE
        &&& b.remaining_time <= 0 ==> b.completed && b.finish_time == Some((t + FIXED_ONE) as i64)
        &&& b.remaining_time > 0 ==> b.completed == a.completed && b.finish_time == a.finish_time
    }
}

/// Pass 6: every core in the middle of a switch spends the tick on it;
/// every other busy core runs its task for one tick.
fn execute_tick(
    tasks: &mut Vec<Task>,
    cores: &mut Vec<Option<usize>>,
    overhead: &mut Vec<i64>,
    events: &mut Vec<SimEvent>,
    last_completion_time: &mut i64,
    t: i64,
    Ghost(g): Ghost<SimState>,
)
    requires
        old(cores)@.len() == old(overhead)@.len(),
        g.tasks == old(tasks)@,
        g.cores == old(cores)@,
        g.overhead == old(overhead)@,
        g.events == old(events)@,
        g.last_completion_time == *old(last_completion_time),
        cores_distinct(old(cores)@),
        cores_hold_below(old(cores)@, old(tasks)@.len() as int),
        forall|i: int| 0 <= i < old(tasks)@.len() ==> (#[trigger] old(tasks)@[i]).remaining_time >= -0x4000_0000_0000_0000,
        -0x4000_0000_0000_0000 <= t <= 0x4000_0000_0000_0000,
    ensures
        final(tasks)@.len() == old(tasks)@.len(),
        forall|i: int| 0 <= i < old(tasks)@.len() ==> executed_only(#[trigger] old(tasks)@[i], final(tasks)@[i], t as int),
        forall|i: int| 0 <= i < old(tasks)@.len() ==> (#[trigger] final(tasks)@[i]).remaining_time != old(tasks)@[i].remaining_time
            ==> on_some_core(old(cores)@, i as usize),
        final(cores)@.len() == old(cores)@.len(),
        final(overhead)@.len() == old(overhead)@.len(),
        forall|c: int| 0 <= c < old(cores)@.len() ==> (#[trigger] final(cores)@[c] == old(cores)@[c] || final(cores)@[c] is None),
        forall|c: int| 0 <= c < old(cores)@.len() ==> (#[trigger] final(cores)@[c] matches Some(x)
            ==> (final(tasks)@[x as int].remaining_time > 0 || final(tasks)@[x as int].remaining_time == old(tasks)@[x as int].remaining_time)),
        *old(last_completion_time) <= *final(last_completion_time),
        *final(last_completion_time) <= *old(last_completion_time) || *final(last_completion_time) == t + FIXED_ONE,
        forall|i: int| 0 <= i < old(tasks)@.len() && completes_now(#[trigger] old(tasks)@[i], final(tasks)@[i])
            ==> *final(last_completion_time) >= t + FIXED_ONE,
        *final(last_completion_time) != *old(last_completion_time) ==> exists|i: int| 0 <= i < old(tasks)@.len()
            && completes_now(#[trigger] old(tasks)@[i], final(tasks)@[i]),
        appends_completions(old(events)@, final(events)@, old(tasks)@, final(tasks)@, t as int),
        count_started(final(events)@) == count_started(old(events)@),
        count_preempted(final(events)@) == count_preempted(old(events)@),
        count_preemptive_starts(final(events)@) == count_preemptive_starts(old(events)@),
        final(tasks)@ == execute_upto(g, old(cores)@.len() as int, t as int).tasks,
        final(cores)@ == execute_upto(g, old(cores)@.len() as int, t as int).cores,
        final(overhead)@ == execute_upto(g, old(cores)@.len() as int, t as int).overhead,
        final(events)@ == execute_upto(g, old(cores)@.len() as int, t as int).events,
        *final(last_completion_time) == execute_upto(g, old(cores)@.len() as int, t as int).last_completion_time,
{
    let ghost events0 = events@;
    let ghost tasks0 = tasks@;
    let ghost cores0 = cores@;
    let ghost last0 = *last_completion_time;
    let n = cores.len();
    let mut core_idx: usize = 0;
    while core_idx < n
        invariant
            core_idx <= n == cores@.len() == overhead@.len() == cores0.len(),
            cores_distinct(cores0),
            cores_hold_below(cores0, tasks0.len() as int),
            forall|i: int| 0 <= i < tasks0.len() ==> (#[trigger] tasks0[i]).remaining_time >= -0x4000_0000_0000_0000,
            -0x4000_0000_0000_0000 <= t <= 0x4000_0000_0000_0000,
            tasks@.len() == tasks0.len(),
            forall|i: int| 0 <= i < tasks0.len() ==> executed_only(#[trigger] tasks0[i], tasks@[i], t as int),
            forall|i: int| 0 <= i < tasks0.len() ==> (#[trigger] tasks@[i]).remaining_time != tasks0[i].remaining_time
                ==> exists|d: int| 0 <= d < core_idx && #[trigger] cores0[d] == Some(i as usize),
            forall|c: int| core_idx <= c < n ==> #[trigger] cores@[c] == cores0[c],
            forall|c: int| 0 <= c < n ==> (#[trigger] cores@[c] == cores0[c] || cores@[c] is None),
            forall|c: int| 0 <= c < core_idx ==> (#[trigger] cores@[c] matches Some(x)
                ==> (tasks@[x as int].remaining_time > 0 || tasks@[x as int].remaining_time == tasks0[x as int].remaining_time)),
            last0 <= *last_completion_time,
            *last_completion_time <= last0 || *last_completion_time == t + FIXED_ONE,
            forall|i: int| 0 <= i < tasks0.len() && completes_now(#[trigger] tasks0[i], tasks@[i])
                ==> *last_completion_time >= t + FIXED_ONE,
            *last_completion_time != last0 ==> exists|i: int| 0 <= i < tasks0.len()
                && completes_now(#[trigger] tasks0[i], tasks@[i]),
            appends_completions(events0, events@, tasks0, tasks@, t as int),
            count_started(events@) == count_started(events0),
            count_preempted(events@) == count_preempted(events0),
            count_preemptive_starts(events@) == count_preemptive_starts(events0),
            g.tasks == tasks0,
            g.cores == cores0,
            g.events == events0,
            g.last_completion_time == last0,
            tasks@ == execute_upto(g, core_idx as int, t as int).tasks,
            cores@ == execute_upto(g, core_idx as int, t as int).cores,
            overhead@ == execute_upto(g, core_idx as int, t as int).overhead,
            events@ == execute_upto(g, core_idx as int, t as int).events,
            *last_completion_time == execute_upto(g, core_idx as int, t as int).last_completion_time,
        decreases n - core_idx,
    {
        let ghost p = execute_upto(g, core_idx as int, t as int);
        if overhead[core_idx] > 0 {
            let o = overhead[core_idx];
            overhead.set(core_idx, o - FIXED_ONE);
        } else if let Some(idx) = cores[core_idx] {
            let ghost tasks_mid = tasks@;
            proof {
                assert(cores0[core_idx as int] == Some(idx));
                assert(tasks@[idx as int] == tasks0[idx as int]) by {
                    if tasks@[idx as int].remaining_time != tasks0[idx as int].remaining_time {
                        let d = choose|d: int| 0 <= d < core_idx && #[trigger] cores0[d] == Some(idx);
                    }
                }
            }
            let ghost events_before = events@;
            let mut tk = tasks[idx];
            tk.remaining_time = tk.remaining_time - FIXED_ONE;
            if tk.remaining_time <= 0 {
                tk.completed = true;
                tk.finish_time = Some(t + FIXED_ONE);
                if t + FIXED_ONE > *last_completion_time {
                    *last_completion_time = t + FIXED_ONE;
                }
                proof {
                    lemma_count_started_push(events@, SimEvent::Completed { time: (t + FIXED_ONE) as i64, task_id: tk.id });
                }
                events.push(SimEvent::Completed { time: t + FIXED_ONE, task_id: tk.id });
                cores.set(core_idx, None);
            }
            let ghost lct_mid = *last_completion_time;
            let ghost events_mid = events_before;
            tasks.set(idx, tk);
            proof {
                assert forall|i: int| 0 <= i < tasks0.len() && completes_now(#[trigger] tasks0[i], tasks@[i])
                    implies *last_completion_time >= t + FIXED_ONE by {
                    if i != idx {
                        assert(tasks@[i] == tasks_mid[i]);
                    }
                }
                assert forall|q: int| events0.len() <= q < events@.len() implies (#[trigger] events@[q] matches SimEvent::Completed { time, task_id }
                    ==> time == t + FIXED_ONE && exists|i: int| 0 <= i < tasks@.len() && (#[trigger] tasks@[i]).id == task_id
                        && completes_now(tasks0[i], tasks@[i])) by {
                    if let SimEvent::Completed { time, task_id } = events@[q] {
                        if q == events@.len() - 1 && completes_now(tasks0[idx as int], tasks@[idx as int]) {
                            assert(tasks@[idx as int].id == task_id);
                        } else {
                            assert(events@[q] == events_mid[q]);
                            let w = choose|i: int| 0 <= i < tasks_mid.len() && (#[trigger] tasks_mid[i]).id == task_id
                                && completes_now(tasks0[i], tasks_mid[i]);
                            assert(w != idx);
                            assert(tasks@[w] == tasks_mid[w]);
                        }
                    }
                }
                if *last_completion_time != last0 {
                    if completes_now(tasks0[idx as int], tasks@[idx as int]) {
                        assert(completes_now(tasks0[idx as int], tasks@[idx as int]));
                    } else {
                        assert(lct_mid == *last_completion_time);
                        let w = choose|w: int| 0 <= w < tasks0.len() && completes_now(#[trigger] tasks0[w], tasks_mid[w]);
                        assert(w != idx);
                        assert(tasks@[w] == tasks_mid[w]);
                    }
                }
                assert forall|i: int| 0 <= i < tasks0.len() && (#[trigger] tasks@[i]).remaining_time != tasks0[i].remaining_time
                    implies exists|d: int| 0 <= d < core_idx + 1 && #[trigger] cores0[d] == Some(i as usize) by {
                    if i == idx {
                        assert(cores0[core_idx as int] == Some(i as usize));
                    } else {
                        assert(tasks@[i] == tasks_mid[i]);
                        let d = choose|d: int| 0 <= d < core_idx && #[trigger] cores0[d] == Some(i as usize);
                    }
                }
                assert forall|c: int| 0 <= c < core_idx + 1 implies (#[trigger] cores@[c] matches Some(x)
                    ==> (tasks@[x as int].remaining_time > 0 || tasks@[x as int].remaining_time == tasks0[x as int].remaining_time)) by {
                    if c < core_idx {
                        if let Some(x) = cores@[c] {
                            assert(cores0[c] == Some(x));
                            assert(x != idx);
                            assert(tasks@[x as int] == tasks_mid[x as int]);
                        }
                    }
                }
            }
        }
        core_idx = core_idx + 1;
    }
}

/// Pass 7: completed and dropped tasks leave the ready queue.
pub open spec fn unfinished(ready: Seq<usize>, tasks: Seq<Task>) -> Seq<usize>
    decreases ready.len(),
{
    if ready.len() == 0 {
        ready
    } else {
        let rest = unfinished(ready.drop_last(), tasks);
        let tk = tasks[ready.last() as int];
        if !tk.completed && !tk.dropped { rest.push(ready.last()) } else { rest }
    }
}

#[verifier::spinoff_prover]
pub proof fn lemma_unfinished_props(ready: Seq<usize>, tasks: Seq<Task>)
    ensures
        forall|x: usize|
            #![trigger unfinished(ready, tasks).contains(x)]
            #![trigger ready.contains(x)]
            unfinished(ready, tasks).contains(x)
            <==> ready.contains(x) && !tasks[x as int].completed && !tasks[x as int].dropped,
        ready.no_duplicates() ==> unfinished(ready, tasks).no_duplicates(),
    decreases ready.len(),
{
    if ready.len() > 0 {
        let pre = ready.drop_last();
        lemma_unfinished_props(pre, tasks);
        crate::scheduler::lemma_drop_last_contains(ready);
        lemma_push_contains(unfinished(pre, tasks), ready.last());
        assert forall|x: usize| unfinished(ready, tasks).contains(x)
            <==> ready.contains(x) && !tasks[x as int].completed && !tasks[x as int].dropped by {
            let last = ready.last();
            let rest = unfinished(pre, tasks);
            assert(ready.contains(x) <==> pre.contains(x) || x == last);
            assert(rest.contains(x) <==> pre.contains(x) && !tasks[x as int].completed && !tasks[x as int].dropped);
            if !tasks[last as int].completed && !tasks[last as int].dropped {
                assert(unfinished(ready, tasks) == rest.push(last));
                assert(rest.push(last).contains(x) <==> rest.contains(x) || x == last);
            } else {
                assert(unfinished(ready, tasks) == rest);
            }
        }
        if ready.no_duplicates() {
            assert(pre.no_duplicates()) by {
                assert forall|i: int, j: int| 0 <= i < pre.len() && 0 <= j < pre.len() && i != j
                    implies pre[i] != pre[j] by {
                    assert(pre[i] == ready[i] && pre[j] == ready[j]);
                }
            }
            assert(!pre.contains(ready.last())) by {
                if pre.contains(ready.last()) {
                    let k = choose|k: int| 0 <= k < pre.len() && pre[k] == ready.last();
                    assert(ready[k] == ready[ready.len() - 1]);
                }
            }
            let tk = tasks[ready.last() as int];
            if !tk.completed && !tk.dropped {
                lemma_push_no_dups(unfinished(pre, tasks), ready.last());
            }
        }
    }
}

proof fn lemma_unfinished_member(ready: Seq<usize>, tasks: Seq<Task>, x: usize)
    requires
        unfinished(ready, tasks).contains(x),
    ensures
        !tasks[x as int].dropped,
{
    lemma_unfinished_props(ready, tasks);
}

fn retain_unfinished(ready: &Vec<usize>, tasks: &Vec<Task>) -> (r: Vec<usize>)
    requires
        indices_below(ready@, tasks@.len() as int),
    ensures
        r@ == unfinished(ready@, tasks@),
{
    let mut out: Vec<usize> = Vec::new();
    let mut i: usize = 0;
    while i < ready.len()
        invariant
            i <= ready@.len(),
            indices_below(ready@, tasks@.len() as int),
            out@ == unfinished(ready@.take(i as int), tasks@),
        decreases ready@.len() - i,
    {
        assert(ready@.take(i as int + 1).drop_last() =~= ready@.take(i as int));
        let idx = ready[i];
        if !tasks[idx].completed && !tasks[idx].dropped {
            out.push(idx);
        }
        i = i + 1;
    }
    assert(ready@.take(ready@.len() as int) =~= ready@);
    out
}

/// Pass 1: admits, in arrival order, every task that has arrived by `t`.
fn admit_arrivals<S: Scheduler>(
    tasks: &Vec<Task>,
    order: &Vec<usize>,
    next_arrival_ptr: &mut usize,
    ready: &mut Vec<usize>,
    t: i64,
    scheduler: &mut S,
    config: &SimConfig,
)
    requires
        is_index_permutation(order@, tasks@.len() as int),
        *old(next_arrival_ptr) <= order@.len(),
        old(scheduler).needs_cores() ==> config.num_cores > 0,
    ensures
        final(scheduler).needs_cores() == old(scheduler).needs_cores(),
        final(scheduler).rule() == old(scheduler).rule(),
        *old(next_arrival_ptr) <= *final(next_arrival_ptr) <= order@.len(),
        final(ready)@ == old(ready)@ + order@.subrange(*old(next_arrival_ptr) as int, *final(next_arrival_ptr) as int),
        forall|p: int| *old(next_arrival_ptr) <= p < *final(next_arrival_ptr) ==> tasks@[#[trigger] order@[p] as int].arrival_time <= t,
        *final(next_arrival_ptr) < order@.len() ==> tasks@[order@[*final(next_arrival_ptr) as int] as int].arrival_time > t,
{
    let ghost ptr0 = *next_arrival_ptr;
    let ghost ready0 = ready@;
    while *next_arrival_ptr < order.len() && tasks[order[*next_arrival_ptr]].arrival_time <= t
        invariant
            is_index_permutation(order@, tasks@.len() as int),
            scheduler.needs_cores() == old(scheduler).needs_cores(),
            scheduler.rule() == old(scheduler).rule(),
            old(scheduler).needs_cores() ==> config.num_cores > 0,
            ptr0 <= *next_arrival_ptr <= order@.len(),
            ready@ == ready0 + order@.subrange(ptr0 as int, *next_arrival_ptr as int),
            forall|p: int| ptr0 <= p < *next_arrival_ptr ==> tasks@[#[trigger] order@[p] as int].arrival_time <= t,
        decreases order@.len() - *next_arrival_ptr,
    {
        let idx = order[*next_arrival_ptr];
        ready.push(idx);
        scheduler.on_task_arrival(idx, tasks.as_slice(), config);
        *next_arrival_ptr = *next_arrival_ptr + 1;
        assert(ready@ =~= ready0 + order@.subrange(ptr0 as int, *next_arrival_ptr as int));
    }
}

/// Whether every core is idle.
fn all_idle(cores: &Vec<Option<usize>>) -> (r: bool)
    ensures
        r == forall|c: int| 0 <= c < cores@.len() ==> (#[trigger] cores@[c]) is None,
{
    let mut c: usize = 0;
    while c < cores.len()
        invariant
            c <= cores@.len(),
            forall|d: int| 0 <= d < c ==> (#[trigger] cores@[d]) is None,
        decreases cores@.len() - c,
    {
        if cores[c].is_some() {
            return false;
        }
        c = c + 1;
    }
    true
}

proof fn lemma_tick_budget(cores: int, k: int, h: int)
    requires
        cores >= 0,
        0 <= k,
        k * FIXED_ONE < h,
    ensures
        2 * cores * k + 2 * cores <= 2 * cores * (h / (FIXED_ONE as int) + 2),
        2 * cores * k + 2 * cores == 2 * cores * (k + 1),
{
    vstd::arithmetic::div_mod::lemma_fundamental_div_mod(h, FIXED_ONE as int);
    let q = h / (FIXED_ONE as int);
    let r = h % (FIXED_ONE as int);
    assert(k <= q) by (nonlinear_arith)
        requires k * FIXED_ONE < h, h == FIXED_ONE * q + r, 0 <= r < FIXED_ONE;
    assert(2 * cores * (k + 1) <= 2 * cores * (q + 2)) by (nonlinear_arith)
        requires k <= q, cores >= 0;
    assert(2 * cores * k + 2 * cores == 2 * cores * (k + 1)) by (nonlinear_arith);
}

/// The simulation state as far as tasks and the ready queue go, at the top
/// of the tick that starts at `t`.
pub open spec fn tasks_invariant(
    orig: Seq<Task>,
    tasks: Seq<Task>,
    order: Seq<usize>,
    ptr: int,
    ready: Seq<usize>,
    t: int,
) -> bool {
    let n = orig.len() as int;
    &&& n <= usize::MAX
    &&& tasks.len() == n
    &&& forall|i: int| 0 <= i < n ==> same_static(#[trigger] orig[i], tasks[i])
    &&& is_index_permutation(order, n)
    &&& sorted_by_arrival(order, orig)
    &&& 0 <= ptr <= n
    &&& t > 0 && ptr < n ==> orig[order[ptr] as int].arrival_time > t - FIXED_ONE
    &&& ready_ok(orig, tasks, order, ptr, ready)
    &&& t > 0 ==> forall|x: usize| #[trigger] ready.contains(x) ==>
            tasks[x as int].deadline - (t - FIXED_ONE) - tasks[x as int].remaining_time >= 0
    &&& work_ok(orig, tasks, t)
}

/// The ready queue holds exactly the admitted tasks that are neither
/// completed nor dropped (and perhaps some that just completed).
pub open spec fn ready_ok(orig: Seq<Task>, tasks: Seq<Task>, order: Seq<usize>, ptr: int, ready: Seq<usize>) -> bool {
    let n = orig.len() as int;
    &&& ready.no_duplicates()
    &&& indices_below(ready, n)
    &&& forall|x: usize| ready.contains(x) ==> admitted(order, ptr, x)
    &&& forall|i: usize| i < n && admitted(order, ptr, i) && !(#[trigger] tasks[i as int]).completed
            && !tasks[i as int].dropped ==> ready.contains(i)
}

/// Remaining work only goes down, by at most one tick per tick, and stays
/// non-negative until the task completes.
pub open spec fn work_ok(orig: Seq<Task>, tasks: Seq<Task>, t: int) -> bool {
    let n = orig.len() as int;
    &&& forall|i: int| 0 <= i < n && !(#[trigger] tasks[i]).completed && orig[i].remaining_time >= 0
            ==> tasks[i].remaining_time >= 0
    &&& forall|i: int| 0 <= i < n ==> orig[i].remaining_time - t <= (#[trigger] tasks[i]).remaining_time <= orig[i].remaining_time
}

/// The context-switch counters stay within the run's budget.
pub open spec fn switch_invariant(orig: Seq<Task>, tasks: Seq<Task>, total: int, num_cores: int, k: int) -> bool {
    &&& 0 <= total <= 2 * num_cores * k
    &&& forall|i: int| 0 <= i < orig.len() ==> (#[trigger] tasks[i]).context_switches_incurred - orig[i].context_switches_incurred <= total
}

/// The main-loop invariant of a simulation run at the top of the tick that
/// starts at `t` (the `k`-th tick).
pub open spec fn run_invariant(
    orig: Seq<Task>,
    tasks: Seq<Task>,
    order: Seq<usize>,
    ptr: int,
    ready: Seq<usize>,
    cores: Seq<Option<usize>>,
    total: int,
    num_cores: int,
    t: int,
    k: int,
) -> bool {
    &&& tasks_invariant(orig, tasks, order, ptr, ready, t)
    &&& cores.len() == num_cores
    &&& cores_distinct(cores)
    &&& cores_hold_below(cores, orig.len() as int)
    &&& switch_invariant(orig, tasks, total, num_cores, k)
    &&& 0 <= k
    &&& t == k * FIXED_ONE
}

/// The state after admission at `t`.
pub open spec fn admitted_state(orig: Seq<Task>, tasks: Seq<Task>, order: Seq<usize>, ptr: int, ready: Seq<usize>, t: int) -> bool {
    let n = orig.len() as int;
    &&& n <= usize::MAX
    &&& tasks.len() == n
    &&& forall|i: int| 0 <= i < n ==> same_static(#[trigger] orig[i], tasks[i])
    &&& is_index_permutation(order, n)
    &&& sorted_by_arrival(order, orig)
    &&& 0 <= ptr <= n
    &&& ptr < n ==> orig[order[ptr] as int].arrival_time > t
    &&& ready_ok(orig, tasks, order, ptr, ready)
    &&& work_ok(orig, tasks, t)
}

proof fn lemma_take_contains(order: Seq<usize>, p0: int, p1: int, x: usize)
    requires
        0 <= p0 <= p1 <= order.len(),
    ensures
        order.take(p1).contains(x) <==> order.take(p0).contains(x) || order.subrange(p0, p1).contains(x),
{
    if order.take(p1).contains(x) {
        let q = choose|q: int| 0 <= q < p1 && order.take(p1)[q] == x;
        if q < p0 {
            assert(order.take(p0)[q] == x);
        } else {
            assert(order.subrange(p0, p1)[q - p0] == x);
        }
    }
    if order.take(p0).contains(x) {
        let q = choose|q: int| 0 <= q < p0 && order.take(p0)[q] == x;
        assert(order.take(p1)[q] == x);
    }
    if order.subrange(p0, p1).contains(x) {
        let q = choose|q: int| 0 <= q < p1 - p0 && order.subrange(p0, p1)[q] == x;
        assert(order.take(p1)[q + p0] == x);
    }
}

proof fn lemma_after_admission(
    orig: Seq<Task>,
    tasks: Seq<Task>,
    order: Seq<usize>,
    p0: int,
    p1: int,
    ready0: Seq<usize>,
    ready1: Seq<usize>,
    t: int,
)
    requires
        tasks_invariant(orig, tasks, order, p0, ready0, t),
        p0 <= p1 <= order.len(),
        ready1 == ready0 + order.subrange(p0, p1),
        forall|p: int| p0 <= p < p1 ==> tasks[#[trigger] order[p] as int].arrival_time <= t,
        p1 < order.len() ==> tasks[order[p1] as int].arrival_time > t,
    ensures
        admitted_state(orig, tasks, order, p1, ready1, t),
        ready1.len() == 0 ==> tasks_invariant(orig, tasks, order, p1, ready1, t),
{
    let n = orig.len() as int;
    let sub = order.subrange(p0, p1);
    if p1 < n {
        assert(same_static(orig[order[p1] as int], tasks[order[p1] as int]));
    }
    // the newly admitted tasks were not admitted before
    assert forall|x: usize| ready1.contains(x) <==> ready0.contains(x) || sub.contains(x) by {
        if ready1.contains(x) {
            let q = choose|q: int| 0 <= q < ready1.len() && ready1[q] == x;
            if q < ready0.len() {
                assert(ready0[q] == x);
            } else {
                assert(sub[q - ready0.len()] == x);
            }
        }
        if ready0.contains(x) {
            let q = choose|q: int| 0 <= q < ready0.len() && ready0[q] == x;
            assert(ready1[q] == x);
        }
        if sub.contains(x) {
            let q = choose|q: int| 0 <= q < sub.len() && sub[q] == x;
            assert(ready1[q + ready0.len()] == x);
        }
    }
    assert forall|x: usize| sub.contains(x) implies !order.take(p0).contains(x) by {
        let q = choose|q: int| 0 <= q < sub.len() && sub[q] == x;
        if order.take(p0).contains(x) {
            let r = choose|r: int| 0 <= r < p0 && order.take(p0)[r] == x;
            assert(order[r] == order[q + p0]);
        }
    }
    assert forall|x: usize| #[trigger] ready1.contains(x) implies admitted(order, p1, x) by {
        lemma_take_contains(order, p0, p1, x);
    }
    assert(ready1.no_duplicates()) by {
        assert forall|a: int, b: int| 0 <= a < ready1.len() && 0 <= b < ready1.len() && a != b implies ready1[a] != ready1[b] by {
            let l0 = ready0.len() as int;
            if a < l0 && b < l0 {
                assert(ready0[a] == ready1[a] && ready0[b] == ready1[b]);
            } else if a >= l0 && b >= l0 {
                assert(sub[a - l0] == order[a - l0 + p0]);
                assert(sub[b - l0] == order[b - l0 + p0]);
            } else if a < l0 {
                assert(ready0.contains(ready1[a]));
                assert(sub.contains(sub[b - l0]));
                assert(ready1[b] == sub[b - l0]);
            } else {
                assert(ready0.contains(ready1[b]));
                assert(sub.contains(sub[a - l0]));
                assert(ready1[a] == sub[a - l0]);
            }
        }
    }
    assert(indices_below(ready1, n)) by {
        assert forall|q: int| 0 <= q < ready1.len() implies #[trigger] ready1[q] < n by {
            if q >= ready0.len() {
                assert(ready1[q] == order[q - ready0.len() + p0]);
            }
        }
    }
    assert forall|i: usize| i < n && admitted(order, p1, i) && !(#[trigger] tasks[i as int]).completed
        && !tasks[i as int].dropped implies ready1.contains(i) by {
        lemma_take_contains(order, p0, p1, i);
    }
}

proof fn lemma_after_drop(
    orig: Seq<Task>,
    tasks_a: Seq<Task>,
    tasks_b: Seq<Task>,
    order: Seq<usize>,
    ptr: int,
    ready_a: Seq<usize>,
    ready_b: Seq<usize>,
    t: i64,
)
    requires
        admitted_state(orig, tasks_a, order, ptr, ready_a, t as int),
        ready_b == nonnegative_laxity(ready_a, tasks_a, t as int),
        tasks_b.len() == tasks_a.len(),
        forall|i: usize| i < tasks_a.len() ==> {
            let was = #[trigger] tasks_a[i as int];
            let now = tasks_b[i as int];
            if ready_a.contains(i) && spec_laxity(was, t as int) < 0 {
                now == marked_dropped(was, t)
            } else {
                now == was
            }
        },
    ensures
        admitted_state(orig, tasks_b, order, ptr, ready_b, t as int),
        forall|x: usize| #[trigger] ready_b.contains(x) ==> spec_laxity(tasks_b[x as int], t as int) >= 0,
        forall|i: int| 0 <= i < tasks_a.len() ==>
            drop_fields_only(tasks_a[i], #[trigger] tasks_b[i]),
{
    let n = orig.len() as int;
    lemma_nonnegative_laxity_props(ready_a, tasks_a, t as int);
    assert forall|i: int| 0 <= i < n implies
        drop_fields_only(tasks_a[i], #[trigger] tasks_b[i])
        && same_static(orig[i], tasks_b[i]) by {
        assert(tasks_a[(i as usize) as int] == tasks_a[i]);
    }
    assert forall|x: usize| #[trigger] ready_b.contains(x) implies spec_laxity(tasks_b[x as int], t as int) >= 0 by {
        assert(ready_a.contains(x));
        assert(x < n);
        assert(tasks_a[x as int] == tasks_b[x as int]);
    }
    assert(indices_below(ready_b, n)) by {
        assert forall|q: int| 0 <= q < ready_b.len() implies #[trigger] ready_b[q] < n by {
            assert(ready_b.contains(ready_b[q]));
            assert(ready_a.contains(ready_b[q]));
        }
    }
    assert forall|i: usize| i < n && admitted(order, ptr, i) && !(#[trigger] tasks_b[i as int]).completed
        && !tasks_b[i as int].dropped implies ready_b.contains(i) by {
        assert(ready_a.contains(i));
    }
    assert forall|i: int| 0 <= i < n && !(#[trigger] tasks_b[i]).completed && orig[i].remaining_time >= 0
        implies tasks_b[i].remaining_time >= 0 by {
        assert(tasks_a[i].completed == tasks_b[i].completed);
    }
    assert forall|i: int| 0 <= i < n implies orig[i].remaining_time - t <= (#[trigger] tasks_b[i]).remaining_time
        <= orig[i].remaining_time by {
        assert(tasks_a[i].remaining_time == tasks_b[i].remaining_time);
    }
}

proof fn lemma_after_tick(
    orig: Seq<Task>,
    tasks_b: Seq<Task>,
    tasks_c: Seq<Task>,
    tasks_d: Seq<Task>,
    tasks_e: Seq<Task>,
    order: Seq<usize>,
    ptr: int,
    ready_b: Seq<usize>,
    ready_e: Seq<usize>,
    t: int,
)
    requires
        admitted_state(orig, tasks_b, order, ptr, ready_b, t),
        forall|x: usize| #[trigger] ready_b.contains(x) ==> spec_laxity(tasks_b[x as int], t) >= 0,
        tasks_c.len() == tasks_b.len(),
        tasks_d.len() == tasks_b.len(),
        tasks_e.len() == tasks_b.len(),
        forall|i: int| 0 <= i < tasks_b.len() ==> dispatch_only(#[trigger] tasks_b[i], tasks_c[i]),
        forall|i: int| 0 <= i < tasks_b.len() ==> dispatch_only(#[trigger] tasks_c[i], tasks_d[i]),
        forall|i: int| 0 <= i < tasks_b.len() ==> executed_only(#[trigger] tasks_d[i], tasks_e[i], t),
        ready_e == unfinished(ready_b, tasks_e),
    ensures
        tasks_invariant(orig, tasks_e, order, ptr, ready_e, t + FIXED_ONE),
        forall|i: int| 0 <= i < tasks_b.len() ==> (#[trigger] tasks_e[i]).context_switches_incurred == tasks_d[i].context_switches_incurred,
{
    let n = orig.len() as int;
    lemma_unfinished_props(ready_b, tasks_e);
    assert forall|i: int| 0 <= i < n implies {
        &&& same_static(#[trigger] orig[i], tasks_e[i])
        &&& tasks_e[i].remaining_time <= tasks_b[i].remaining_time
        &&& tasks_e[i].remaining_time >= tasks_b[i].remaining_time - FIXED_ONE
        &&& tasks_e[i].dropped == tasks_b[i].dropped
        &&& tasks_b[i].completed ==> tasks_e[i].completed
        &&& tasks_e[i].context_switches_incurred == tasks_d[i].context_switches_incurred
        &&& (!tasks_e[i].completed ==> (tasks_e[i].remaining_time > 0 || (!tasks_b[i].completed
                && tasks_e[i].remaining_time == tasks_b[i].remaining_time)))
    } by {
        assert(dispatch_only(tasks_b[i], tasks_c[i]));
        assert(dispatch_only(tasks_c[i], tasks_d[i]));
        assert(executed_only(tasks_d[i], tasks_e[i], t));
    }
    assert(indices_below(ready_e, n)) by {
        assert forall|q: int| 0 <= q < ready_e.len() implies #[trigger] ready_e[q] < n by {
            assert(ready_e.contains(ready_e[q]));
            assert(ready_b.contains(ready_e[q]));
        }
    }
    assert forall|i: usize| i < n && admitted(order, ptr, i) && !(#[trigger] tasks_e[i as int]).completed
        && !tasks_e[i as int].dropped implies ready_e.contains(i) by {
        assert(ready_b.contains(i));
    }
    assert forall|x: usize| #[trigger] ready_e.contains(x) implies
        tasks_e[x as int].deadline - ((t + FIXED_ONE) - FIXED_ONE) - tasks_e[x as int].remaining_time >= 0 by {
        assert(ready_b.contains(x));
        assert(x < n);
    }
    assert forall|i: int| 0 <= i < n && !(#[trigger] tasks_e[i]).completed && orig[i].remaining_time >= 0
        implies tasks_e[i].remaining_time >= 0 by {
    }
    assert forall|i: int| 0 <= i < n implies orig[i].remaining_time - (t + FIXED_ONE)
        <= (#[trigger] tasks_e[i]).remaining_time <= orig[i].remaining_time by {
    }
    assert(ready_e.no_duplicates());
    assert forall|x: usize| ready_e.contains(x) implies admitted(order, ptr, x) by {
        assert(ready_b.contains(x));
    }
    assert(ready_ok(orig, tasks_e, order, ptr, ready_e));
    assert(work_ok(orig, tasks_e, t + FIXED_ONE));
    assert(forall|i: int| 0 <= i < n ==> same_static(#[trigger] orig[i], tasks_e[i]));
    assert(t + FIXED_ONE > 0 && ptr < n ==> orig[order[ptr] as int].arrival_time > t + FIXED_ONE - FIXED_ONE);
}

/// Freeing cores keeps them distinct and within range.
proof fn lemma_cores_freed(cores0: Seq<Option<usize>>, cores1: Seq<Option<usize>>, n: int)
    requires
        cores1.len() == cores0.len(),
        cores_distinct(cores0),
        cores_hold_below(cores0, n),
        forall|c: int| 0 <= c < cores0.len() ==> (#[trigger] cores1[c] == cores0[c] || cores1[c] is None),
    ensures
        cores_distinct(cores1),
        cores_hold_below(cores1, n),
{
    assert forall|a: int, b: int| 0 <= a < cores1.len() && 0 <= b < cores1.len() && a != b && cores1[a] is Some
        implies cores1[a] != cores1[b] by {
        assert(cores1[a] == cores0[a]);
        if cores1[b] is Some {
            assert(cores1[b] == cores0[b]);
        }
    }
    assert forall|c: int| 0 <= c < cores1.len() implies (#[trigger] cores1[c] matches Some(x) ==> x < n) by {
        if cores1[c] is Some {
            assert(cores1[c] == cores0[c]);
        }
    }
}

/// The end of a run: every task that arrives no later than its deadline,
/// with work not negative, has been completed or dropped.
proof fn lemma_run_end(
    orig: Seq<Task>,
    tasks: Seq<Task>,
    order: Seq<usize>,
    ptr: int,
    ready: Seq<usize>,
    t: int,
)
    requires
        tasks_invariant(orig, tasks, order, ptr, ready, t),
        (t >= horizon(orig) && t > 0) || (ptr >= orig.len() && ready.len() == 0),
        forall|i: int| 0 <= i < orig.len() ==> (#[trigger] orig[i]).deadline <= max_deadline(orig),
    ensures
        forall|i: int| 0 <= i < orig.len() ==> accounted_for(#[trigger] orig[i], tasks[i]),
{
    let n = orig.len() as int;
    assert forall|i: int| 0 <= i < n implies accounted_for(#[trigger] orig[i], tasks[i]) by {
        let tk = orig[i];
        if tk.arrival_time <= tk.deadline && tk.remaining_time >= 0 && !tasks[i].completed && !tasks[i].dropped {
            let x = i as usize;
            assert(order.contains(x));
            let p = choose|p: int| 0 <= p < order.len() && order[p] == x;
            if p < ptr {
                assert(order.take(ptr)[p] == x);
                assert(admitted(order, ptr, x));
                assert(ready.contains(x));
                if t >= horizon(orig) && t > 0 {
                    assert(same_static(orig[i], tasks[i]));
                    assert(tasks[i].remaining_time >= 0);
                    assert(false);
                } else {
                    assert(false);
                }
            } else {
                if ptr >= n {
                    assert(false);
                } else {
                    if p > ptr {
                        assert(orig[order[ptr] as int].arrival_time <= orig[order[p] as int].arrival_time);
                    }
                    assert(false);
                }
            }
        }
    }
}

/// A task that arrives no later than its deadline, with work not
/// negative, is accounted for by the end of a run.
pub open spec fn accounted_for(orig: Task, fin: Task) -> bool {
    orig.arrival_time <= orig.deadline && orig.remaining_time >= 0 ==> fin.completed || fin.dropped
}

/// A task the run completes keeps its finish time and has no work left; a
/// task the run drops keeps the time it was dropped at.
pub open spec fn outcome_recorded(orig: Task, fin: Task) -> bool {
    &&& fin.completed && !orig.completed ==> fin.finish_time is Some && fin.remaining_time <= 0
    &&& fin.dropped && !orig.dropped ==> fin.dropped_at is Some
}

/// The run dropped the task: it was not dropped when the run began.
pub open spec fn run_dropped(orig: Task, tk: Task) -> bool {
    tk.dropped && !orig.dropped
}

/// A task the run drops could no longer meet its deadline when it was
/// dropped: its laxity at the drop time is negative.
pub open spec fn drop_justified(orig: Task, fin: Task) -> bool {
    run_dropped(orig, fin) ==> (fin.dropped_at matches Some(td) && spec_laxity(fin, td as int) < 0)
}

/// Dropped tasks are justified, and none of them waits for admission, sits
/// in the ready queue or occupies a core.
pub open spec fn drop_invariant(
    orig: Seq<Task>,
    tasks: Seq<Task>,
    order: Seq<usize>,
    ptr: int,
    ready: Seq<usize>,
    cores: Seq<Option<usize>>,
) -> bool {
    &&& forall|i: int| 0 <= i < orig.len() ==> drop_justified(#[trigger] orig[i], tasks[i])
    &&& forall|p: int| ptr <= p < order.len() ==> !run_dropped(orig[order[p] as int], #[trigger] tasks[order[p] as int])
    &&& forall|x: usize| #[trigger] ready.contains(x) ==> !run_dropped(orig[x as int], tasks[x as int])
    &&& forall|c: int| 0 <= c < cores.len() ==> (#[trigger] cores[c] matches Some(x) ==> !run_dropped(orig[x as int], tasks[x as int]))
}

proof fn lemma_drop_invariant_admission(
    orig: Seq<Task>,
    tasks: Seq<Task>,
    order: Seq<usize>,
    p0: int,
    p1: int,
    ready0: Seq<usize>,
    ready1: Seq<usize>,
    cores: Seq<Option<usize>>,
)
    requires
        drop_invariant(orig, tasks, order, p0, ready0, cores),
        0 <= p0 <= p1 <= order.len(),
        ready1 == ready0 + order.subrange(p0, p1),
    ensures
        drop_invariant(orig, tasks, order, p1, ready1, cores),
{
    assert forall|x: usize| #[trigger] ready1.contains(x) implies !run_dropped(orig[x as int], tasks[x as int]) by {
        let j = choose|j: int| 0 <= j < ready1.len() && ready1[j] == x;
        if j < ready0.len() {
            assert(ready0[j] == x);
            assert(ready0.contains(x));
        } else {
            assert(order[p0 + (j - ready0.len())] == x);
        }
    }
}

proof fn lemma_drop_invariant_drop(
    orig: Seq<Task>,
    tasks_a: Seq<Task>,
    tasks_b: Seq<Task>,
    order: Seq<usize>,
    ptr: int,
    ready_a: Seq<usize>,
    ready_b: Seq<usize>,
    cores_a: Seq<Option<usize>>,
    cores_b: Seq<Option<usize>>,
    t: i64,
)
    requires
        drop_invariant(orig, tasks_a, order, ptr, ready_a, cores_a),
        admitted_state(orig, tasks_a, order, ptr, ready_a, t as int),
        ready_b == nonnegative_laxity(ready_a, tasks_a, t as int),
        tasks_b.len() == tasks_a.len(),
        forall|i: usize| i < tasks_a.len() ==> {
            let was = #[trigger] tasks_a[i as int];
            let now = tasks_b[i as int];
            if ready_a.contains(i) && spec_laxity(was, t as int) < 0 {
                now == marked_dropped(was, t)
            } else {
                now == was
            }
        },
        cores_b.len() == cores_a.len(),
        forall|c: int| 0 <= c < cores_a.len() ==> {
            let r = #[trigger] cores_a[c];
            if r matches Some(x) && ready_a.contains(x) && x < tasks_a.len()
                && spec_laxity(tasks_a[x as int], t as int) < 0 {
                cores_b[c] is None
            } else {
                cores_b[c] == r
            }
        },
        cores_hold_below(cores_a, orig.len() as int),
    ensures
        drop_invariant(orig, tasks_b, order, ptr, ready_b, cores_b),
{
    lemma_nonnegative_laxity_props(ready_a, tasks_a, t as int);
    let n = orig.len();
    assert forall|i: int| 0 <= i < n implies drop_justified(#[trigger] orig[i], tasks_b[i]) by {
        assert(tasks_a[(i as usize) as int] == tasks_a[i]);
    }
    assert forall|p: int| ptr <= p < order.len() implies !run_dropped(orig[order[p] as int], #[trigger] tasks_b[order[p] as int]) by {
        let x = order[p];
        assert(x < n);
        assert(tasks_a[x as int] == tasks_a[x as int]);
        if ready_a.contains(x) {
            assert(admitted(order, ptr, x));
            let q = choose|q: int| 0 <= q < order.take(ptr).len() && order.take(ptr)[q] == x;
            assert(order[q] == order[p]);
        }
    }
    assert forall|x: usize| #[trigger] ready_b.contains(x) implies !run_dropped(orig[x as int], tasks_b[x as int]) by {
        assert(ready_a.contains(x));
        assert(tasks_a[x as int] == tasks_a[x as int]);
    }
    assert forall|c: int| 0 <= c < cores_b.len() implies (#[trigger] cores_b[c] matches Some(x)
        ==> !run_dropped(orig[x as int], tasks_b[x as int])) by {
        let r = cores_a[c];
        if let Some(x) = cores_b[c] {
            assert(r == Some(x));
            assert(x < n);
            assert(tasks_a[x as int] == tasks_a[x as int]);
        }
    }
}

proof fn lemma_drop_invariant_tick(
    orig: Seq<Task>,
    tasks_b: Seq<Task>,
    tasks_c: Seq<Task>,
    tasks_d: Seq<Task>,
    tasks_e: Seq<Task>,
    order: Seq<usize>,
    ptr: int,
    ready_b: Seq<usize>,
    ready_e: Seq<usize>,
    cores_b: Seq<Option<usize>>,
    cores_c: Seq<Option<usize>>,
    cores_d: Seq<Option<usize>>,
    cores_e: Seq<Option<usize>>,
    ranked: Seq<usize>,
    t: int,
)
    requires
        drop_invariant(orig, tasks_b, order, ptr, ready_b, cores_b),
        tasks_b.len() == orig.len(),
        is_index_permutation(order, orig.len() as int),
        orig.len() <= usize::MAX,
        0 <= ptr,
        cores_hold_below(cores_d, orig.len() as int),
        forall|x: usize| ranked.contains(x) ==> ready_b.contains(x),
        tasks_c.len() == tasks_b.len(),
        forall|i: int| 0 <= i < tasks_b.len() ==> dispatch_only(#[trigger] tasks_b[i], tasks_c[i]),
        cores_c.len() == cores_b.len(),
        forall|c: int| 0 <= c < cores_b.len() ==> (#[trigger] cores_c[c] != cores_b[c] ==> (cores_c[c] matches Some(x) && ranked.contains(x))),
        tasks_d.len() == tasks_c.len(),
        forall|i: int| 0 <= i < tasks_c.len() ==> dispatch_only(#[trigger] tasks_c[i], tasks_d[i]),
        cores_d.len() == cores_c.len(),
        forall|c: int| 0 <= c < cores_c.len() ==> (#[trigger] cores_d[c] != cores_c[c] ==> (cores_d[c] matches Some(x) && ranked.contains(x))),
        tasks_e.len() == tasks_d.len(),
        forall|i: int| 0 <= i < tasks_d.len() ==> executed_only(#[trigger] tasks_d[i], tasks_e[i], t),
        forall|i: int| 0 <= i < tasks_d.len() ==> (#[trigger] tasks_e[i]).remaining_time != tasks_d[i].remaining_time
            ==> on_some_core(cores_d, i as usize),
        cores_e.len() == cores_d.len(),
        forall|c: int| 0 <= c < cores_d.len() ==> (#[trigger] cores_e[c] == cores_d[c] || cores_e[c] is None),
        ready_e == unfinished(ready_b, tasks_e),
    ensures
        drop_invariant(orig, tasks_e, order, ptr, ready_e, cores_e),
{
    let n = orig.len();
    lemma_unfinished_props(ready_b, tasks_e);
    // the flags, the deadline and the drop time stay as they were
    assert forall|i: int| 0 <= i < n implies
        (#[trigger] tasks_e[i]).dropped == tasks_b[i].dropped
        && tasks_e[i].dropped_at == tasks_b[i].dropped_at
        && tasks_e[i].deadline == tasks_b[i].deadline
        && tasks_d[i].dropped == tasks_b[i].dropped
        && tasks_d[i].remaining_time == tasks_b[i].remaining_time by {
        assert(dispatch_only(tasks_b[i], tasks_c[i]));
        assert(dispatch_only(tasks_c[i], tasks_d[i]));
        assert(executed_only(tasks_d[i], tasks_e[i], t));
    }
    // cores after dispatching hold no dropped task
    assert forall|c: int| 0 <= c < cores_d.len() implies (#[trigger] cores_d[c] matches Some(x)
        ==> !run_dropped(orig[x as int], tasks_d[x as int])) by {
        if let Some(x) = cores_d[c] {
            if cores_d[c] != cores_c[c] {
                assert(ranked.contains(x));
                assert(ready_b.contains(x));
            } else if cores_c[c] != cores_b[c] {
                assert(ranked.contains(x));
                assert(ready_b.contains(x));
            } else {
                assert(cores_b[c] == Some(x));
            }
            if x < n {
                assert(tasks_e[x as int].dropped == tasks_b[x as int].dropped);
            }
        }
    }
    assert forall|i: int| 0 <= i < n implies drop_justified(#[trigger] orig[i], tasks_e[i]) by {
        assert(tasks_e[i].dropped == tasks_b[i].dropped);
        if run_dropped(orig[i], tasks_e[i]) {
            assert(drop_justified(orig[i], tasks_b[i]));
            if tasks_e[i].remaining_time != tasks_d[i].remaining_time {
                assert(on_some_core(cores_d, i as usize));
                let c = choose|c: int| 0 <= c < cores_d.len() && #[trigger] cores_d[c] == Some(i as usize);
                assert((i as usize) as int == i);
                assert(cores_d[c] matches Some(x) ==> !run_dropped(orig[x as int], tasks_d[x as int]));
                assert(!run_dropped(orig[i], tasks_d[i]));
            }
        }
    }
    assert forall|p: int| ptr <= p < order.len() implies !run_dropped(orig[order[p] as int], #[trigger] tasks_e[order[p] as int]) by {
        let x = order[p];
        assert(x < n);
        assert(!run_dropped(orig[x as int], tasks_b[x as int]));
        assert(tasks_e[x as int].dropped == tasks_b[x as int].dropped);
    }
    assert forall|c: int| 0 <= c < cores_e.len() implies (#[trigger] cores_e[c] matches Some(x)
        ==> !run_dropped(orig[x as int], tasks_e[x as int])) by {
        if let Some(x) = cores_e[c] {
            assert(cores_d[c] == Some(x));
            if x < n {
                assert(tasks_e[x as int].dropped == tasks_b[x as int].dropped);
            }
        }
    }
    assert forall|x: usize| #[trigger] ready_e.contains(x) implies !run_dropped(orig[x as int], tasks_e[x as int]) by {
        lemma_unfinished_member(ready_b, tasks_e, x);
    }
}

/// A task that has not been started, finished or dropped yet.
pub open spec fn fresh(tk: Task) -> bool {
    &&& !tk.completed
    &&& !tk.dropped
    &&& tk.start_time is None
    &&& tk.finish_time is None
    &&& tk.dropped_at is None
}

/// A task is not both completed and dropped; only a completed task has a
/// finish time, and it finished after it started.
pub open spec fn outcome_consistent(tk: Task) -> bool {
    &&& tk.completed ==> !tk.dropped
    &&& tk.finish_time is Some ==> tk.completed
    &&& tk.completed ==> (tk.start_time matches Some(s) && tk.finish_time matches Some(f) && s < f)
}

/// The run completed the task: it was not completed when the run began.
pub open spec fn run_completed(orig: Task, tk: Task) -> bool {
    tk.completed && !orig.completed
}

/// What the run keeps of the outcomes at the top of the tick that starts at
/// `t`: cores hold admitted, started tasks; the run has completed neither a
/// task still to be admitted nor one in the ready queue; and every task
/// that began fresh has a consistent outcome and started before `t`.
pub open spec fn outcome_invariant(
    orig: Seq<Task>,
    tasks: Seq<Task>,
    order: Seq<usize>,
    ptr: int,
    ready: Seq<usize>,
    cores: Seq<Option<usize>>,
    t: int,
) -> bool {
    &&& forall|c: int| 0 <= c < cores.len() ==> (#[trigger] cores[c] matches Some(x)
            ==> admitted(order, ptr, x) && tasks[x as int].start_time is Some)
    &&& forall|p: int| ptr <= p < order.len() ==> !run_completed(orig[order[p] as int], #[trigger] tasks[order[p] as int])
    &&& forall|x: usize| #[trigger] ready.contains(x) ==> !run_completed(orig[x as int], tasks[x as int])
    &&& forall|i: int| 0 <= i < orig.len() && fresh(orig[i]) ==> outcome_consistent(#[trigger] tasks[i])
            && (tasks[i].start_time matches Some(s) ==> s < t)
            && (tasks[i].finish_time matches Some(f) ==> f <= t)
}

/// The outcome of a task that enters a run fresh, with work not negative
/// and its arrival no later than its deadline: it ends either completed or
/// dropped, not both; a completed task started no earlier than its arrival
/// and finished after it started; a dropped task has no finish time and
/// could no longer meet its deadline at the time it was dropped.
pub open spec fn task_outcome(orig: Task, fin: Task) -> bool {
    fresh(orig) && orig.remaining_time >= 0 && orig.arrival_time <= orig.deadline ==> {
        &&& fin.completed != fin.dropped
        &&& fin.completed ==> (fin.start_time matches Some(s) && fin.finish_time matches Some(f)
                && orig.arrival_time <= s < f)
        &&& fin.dropped ==> (fin.dropped_at matches Some(x) && fin.finish_time is None
                && spec_laxity(fin, x as int) < 0)
    }
}

/// The latest finish time among the tasks, or 0 when none has finished.
pub open spec fn latest_finish(tasks: Seq<Task>) -> int
    decreases tasks.len(),
{
    if tasks.len() == 0 {
        0
    } else {
        let m = latest_finish(tasks.drop_last());
        match tasks.last().finish_time {
            Some(f) => if f > m { f as int } else { m },
            None => m,
        }
    }
}

proof fn lemma_latest_finish_same(a: Seq<Task>, b: Seq<Task>)
    requires
        a.len() == b.len(),
        forall|i: int| 0 <= i < a.len() ==> (#[trigger] a[i]).finish_time == b[i].finish_time,
    ensures
        latest_finish(a) == latest_finish(b),
    decreases a.len(),
{
    if a.len() > 0 {
        assert forall|i: int| 0 <= i < a.drop_last().len() implies (#[trigger] a.drop_last()[i]).finish_time
            == b.drop_last()[i].finish_time by {
            assert(a.drop_last()[i] == a[i] && b.drop_last()[i] == b[i]);
        }
        lemma_latest_finish_same(a.drop_last(), b.drop_last());
        assert(a.last() == a[a.len() - 1]);
    }
}

/// When every finish time is at most `bound >= 0`, so is the latest; and
/// when finish times change only to `bound + 1` tick, the latest becomes
/// that, or stays where it was when none changed.
proof fn lemma_latest_finish_tick(a: Seq<Task>, b: Seq<Task>, bound: int)
    requires
        a.len() == b.len(),
        bound >= 0,
        forall|i: int| 0 <= i < a.len() ==> ((#[trigger] a[i]).finish_time matches Some(f) ==> f <= bound),
        forall|i: int| 0 <= i < a.len() ==> (#[trigger] b[i]).finish_time == a[i].finish_time
            || b[i].finish_time == Some((bound + FIXED_ONE) as i64),
        bound + FIXED_ONE <= i64::MAX,
    ensures
        0 <= latest_finish(a) <= bound,
        (exists|i: int| 0 <= i < a.len() && (#[trigger] b[i]).finish_time != a[i].finish_time)
            ==> latest_finish(b) == bound + FIXED_ONE,
        (forall|i: int| 0 <= i < a.len() ==> (#[trigger] b[i]).finish_time == a[i].finish_time)
            ==> latest_finish(b) == latest_finish(a),
    decreases a.len(),
{
    if a.len() > 0 {
        let a0 = a.drop_last();
        let b0 = b.drop_last();
        assert forall|i: int| 0 <= i < a0.len() implies ((#[trigger] a0[i]).finish_time matches Some(f) ==> f <= bound) by {
            assert(a0[i] == a[i]);
        }
        assert forall|i: int| 0 <= i < a0.len() implies (#[trigger] b0[i]).finish_time == a0[i].finish_time
            || b0[i].finish_time == Some((bound + FIXED_ONE) as i64) by {
            assert(a0[i] == a[i] && b0[i] == b[i]);
        }
        lemma_latest_finish_tick(a0, b0, bound);
        let last = a.len() - 1;
        assert(a.last() == a[last] && b.last() == b[last]);
        if exists|i: int| 0 <= i < a.len() && (#[trigger] b[i]).finish_time != a[i].finish_time {
            let w = choose|i: int| 0 <= i < a.len() && (#[trigger] b[i]).finish_time != a[i].finish_time;
            if w < last {
                assert(b0[w] == b[w] && a0[w] == a[w]);
                assert(latest_finish(b0) == bound + FIXED_ONE);
            } else {
                assert(b[last].finish_time == Some((bound + FIXED_ONE) as i64));
                if b0.len() > 0 {
                    if exists|i: int| 0 <= i < a0.len() && (#[trigger] b0[i]).finish_time != a0[i].finish_time {
                    } else {
                        assert forall|i: int| 0 <= i < a0.len() implies (#[trigger] b0[i]).finish_time
                            == a0[i].finish_time by {
                        }
                    }
                }
            }
        }
        if forall|i: int| 0 <= i < a.len() ==> (#[trigger] b[i]).finish_time == a[i].finish_time {
            assert forall|i: int| 0 <= i < a0.len() implies (#[trigger] b0[i]).finish_time == a0[i].finish_time by {
                assert(a0[i] == a[i] && b0[i] == b[i]);
            }
        }
    }
}

/// Every task of the run began fresh.
pub open spec fn all_fresh(tasks: Seq<Task>) -> bool {
    forall|i: int| 0 <= i < tasks.len() ==> fresh(#[trigger] tasks[i])
}

proof fn lemma_makespan_tick(
    orig: Seq<Task>,
    ta: Seq<Task>,
    tb: Seq<Task>,
    tc: Seq<Task>,
    td: Seq<Task>,
    te: Seq<Task>,
    lct_a: int,
    lct_e: int,
    t: int,
)
    requires
        all_fresh(orig),
        ta.len() == orig.len(),
        0 <= t <= 0x4000_0000_0000_0000,
        lct_a == latest_finish(ta),
        forall|i: int| 0 <= i < orig.len() && fresh(orig[i]) ==> ((#[trigger] ta[i]).finish_time matches Some(f) ==> f <= t),
        tb.len() == ta.len(),
        forall|i: int| 0 <= i < ta.len() ==> (#[trigger] tb[i]).finish_time == ta[i].finish_time,
        tc.len() == tb.len(),
        forall|i: int| 0 <= i < tb.len() ==> dispatch_only(#[trigger] tb[i], tc[i]),
        td.len() == tc.len(),
        forall|i: int| 0 <= i < tc.len() ==> dispatch_only(#[trigger] tc[i], td[i]),
        te.len() == td.len(),
        forall|i: int| 0 <= i < td.len() ==> executed_only(#[trigger] td[i], te[i], t),
        lct_a <= lct_e,
        lct_e <= lct_a || lct_e == t + FIXED_ONE,
        forall|i: int| 0 <= i < td.len() && completes_now(#[trigger] td[i], te[i]) ==> lct_e >= t + FIXED_ONE,
        lct_e != lct_a ==> exists|i: int| 0 <= i < td.len() && completes_now(#[trigger] td[i], te[i]),
    ensures
        lct_e == latest_finish(te),
{
    assert forall|i: int| 0 <= i < ta.len() implies (#[trigger] ta[i]).finish_time == td[i].finish_time by {
        assert(dispatch_only(tb[i], tc[i]));
        assert(dispatch_only(tc[i], td[i]));
    }
    lemma_latest_finish_same(ta, td);
    assert forall|i: int| 0 <= i < td.len() implies ((#[trigger] td[i]).finish_time matches Some(f) ==> f <= t) by {
        assert(fresh(orig[i]));
        assert(ta[i].finish_time == td[i].finish_time);
    }
    assert forall|i: int| 0 <= i < td.len() implies (#[trigger] te[i]).finish_time == td[i].finish_time
        || te[i].finish_time == Some((t + FIXED_ONE) as i64) by {
        assert(executed_only(td[i], te[i], t));
    }
    lemma_latest_finish_tick(td, te, t);
    if exists|i: int| 0 <= i < td.len() && (#[trigger] te[i]).finish_time != td[i].finish_time {
        let w = choose|i: int| 0 <= i < td.len() && (#[trigger] te[i]).finish_time != td[i].finish_time;
        assert(executed_only(td[w], te[w], t));
        assert(completes_now(td[w], te[w]));
    } else {
        if lct_e != lct_a {
            let w = choose|i: int| 0 <= i < td.len() && completes_now(#[trigger] td[i], te[i]);
            assert(executed_only(td[w], te[w], t));
            assert(te[w].finish_time == Some((t + FIXED_ONE) as i64));
            assert(te[w].finish_time == td[w].finish_time);
        }
        assert forall|i: int| 0 <= i < td.len() implies (#[trigger] te[i]).finish_time == td[i].finish_time by {
        }
    }
}

/// A completion event names a task that finished at the event's time.
pub open spec fn completion_found(e: SimEvent, tasks: Seq<Task>) -> bool {
    e matches SimEvent::Completed { time, task_id } ==> exists|i: int| 0 <= i < tasks.len()
        && (#[trigger] tasks[i]).id == task_id && tasks[i].finish_time == Some(time)
}

/// Every completion event of the trace names a task that finished at the
/// event's time.
pub open spec fn completions_found(events: Seq<SimEvent>, tasks: Seq<Task>) -> bool {
    forall|q: int| 0 <= q < events.len() ==> completion_found(#[trigger] events[q], tasks)
}

proof fn lemma_completions_tick(
    orig: Seq<Task>,
    ta: Seq<Task>,
    tb: Seq<Task>,
    tc: Seq<Task>,
    td: Seq<Task>,
    te: Seq<Task>,
    ea: Seq<SimEvent>,
    eb: Seq<SimEvent>,
    ec: Seq<SimEvent>,
    ed: Seq<SimEvent>,
    ee: Seq<SimEvent>,
    ra: Seq<usize>,
    ca: Seq<Option<usize>>,
    cb: Seq<Option<usize>>,
    cc: Seq<Option<usize>>,
    cd: Seq<Option<usize>>,
    ce: Seq<Option<usize>>,
    ranked: Seq<usize>,
    t: int,
)
    requires
        all_fresh(orig),
        ta.len() == orig.len(),
        orig.len() <= usize::MAX,
        0 <= t <= 0x4000_0000_0000_0000,
        completions_found(ea, ta),
        forall|c: int| 0 <= c < ca.len() ==> (#[trigger] ca[c] matches Some(x) ==> !ta[x as int].completed),
        forall|x: usize| #[trigger] ra.contains(x) ==> !run_completed(orig[x as int], ta[x as int]),
        forall|i: int| 0 <= i < orig.len() && fresh(orig[i]) ==> outcome_consistent(#[trigger] ta[i]),
        forall|x: usize| ranked.contains(x) ==> ra.contains(x),
        // dropping: only the drop fields change
        tb.len() == ta.len(),
        forall|i: int| 0 <= i < ta.len() ==> drop_fields_only(#[trigger] ta[i], tb[i]),
        appends_no_completion(ea, eb),
        cb.len() == ca.len(),
        forall|c: int| 0 <= c < ca.len() ==> (#[trigger] cb[c] == ca[c] || cb[c] is None),
        // dispatching
        tc.len() == tb.len(),
        forall|i: int| 0 <= i < tb.len() ==> dispatch_only(#[trigger] tb[i], tc[i]),
        appends_no_completion(eb, ec),
        cc.len() == cb.len(),
        forall|c: int| 0 <= c < cb.len() ==> (#[trigger] cc[c] != cb[c] ==> (cc[c] matches Some(x) && ranked.contains(x))),
        td.len() == tc.len(),
        forall|i: int| 0 <= i < tc.len() ==> dispatch_only(#[trigger] tc[i], td[i]),
        appends_no_completion(ec, ed),
        cd.len() == cc.len(),
        forall|c: int| 0 <= c < cc.len() ==> (#[trigger] cd[c] != cc[c] ==> (cd[c] matches Some(x) && ranked.contains(x))),
        cores_hold_below(cd, ta.len() as int),
        // executing
        te.len() == td.len(),
        forall|i: int| 0 <= i < td.len() ==> executed_only(#[trigger] td[i], te[i], t),
        forall|i: int| 0 <= i < td.len() ==> (#[trigger] te[i]).remaining_time != td[i].remaining_time
            ==> on_some_core(cd, i as usize),
        appends_completions(ed, ee, td, te, t),
        ce.len() == cd.len(),
        forall|c: int| 0 <= c < cd.len() ==> (#[trigger] ce[c] == cd[c] || ce[c] is None),
        forall|c: int| 0 <= c < cd.len() ==> (#[trigger] ce[c] matches Some(x)
            ==> (te[x as int].remaining_time > 0 || te[x as int].remaining_time == td[x as int].remaining_time)),
    ensures
        completions_found(ee, te),
        forall|c: int| 0 <= c < ce.len() ==> (#[trigger] ce[c] matches Some(x) ==> !te[x as int].completed),
{
    // tasks on the cores at execution time are not completed
    assert forall|c: int| 0 <= c < cd.len() implies (#[trigger] cd[c] matches Some(x) ==> !td[x as int].completed) by {
        if let Some(x) = cd[c] {
            if cd[c] != cc[c] || cc[c] != cb[c] {
                assert(ranked.contains(x));
                assert(ra.contains(x));
                assert(fresh(orig[x as int]));
            } else {
                assert(ca[c] == Some(x));
            }
            assert(drop_fields_only(ta[x as int], tb[x as int]));
            assert(dispatch_only(tb[x as int], tc[x as int]));
            assert(dispatch_only(tc[x as int], td[x as int]));
        }
    }
    assert forall|c: int| 0 <= c < ce.len() implies (#[trigger] ce[c] matches Some(x) ==> !te[x as int].completed) by {
        if let Some(x) = ce[c] {
            assert(cd[c] == Some(x));
            assert(executed_only(td[x as int], te[x as int], t));
        }
    }
    assert forall|q: int| 0 <= q < ee.len() implies completion_found(#[trigger] ee[q], te) by {
        if let SimEvent::Completed { time, task_id } = ee[q] {
            if q < ed.len() {
                assert(ee[q] == ed[q]);
                assert(q < ea.len()) by {
                    if q >= ec.len() {
                        assert(!(ed[q] is Completed));
                    } else if q >= eb.len() {
                        assert(ed[q] == ec[q]);
                        assert(!(ec[q] is Completed));
                    } else if q >= ea.len() {
                        assert(ed[q] == ec[q] && ec[q] == eb[q]);
                        assert(!(eb[q] is Completed));
                    }
                }
                assert(ed[q] == ec[q] && ec[q] == eb[q] && eb[q] == ea[q]);
                assert(completion_found(ea[q], ta));
                let w = choose|i: int| 0 <= i < ta.len() && (#[trigger] ta[i]).id == task_id && ta[i].finish_time == Some(time);
                assert(fresh(orig[w]));
                assert(outcome_consistent(ta[w]));
                assert(drop_fields_only(ta[w], tb[w]));
                assert(dispatch_only(tb[w], tc[w]));
                assert(dispatch_only(tc[w], td[w]));
                assert(executed_only(td[w], te[w], t));
                if te[w].remaining_time != td[w].remaining_time {
                    assert(on_some_core(cd, w as usize));
                    let c = choose|c: int| 0 <= c < cd.len() && #[trigger] cd[c] == Some(w as usize);
                    assert((w as usize) as int == w);
                    assert(!td[w].completed);
                }
                assert(te[w].id == task_id && te[w].finish_time == Some(time));
            } else {
                let w = choose|i: int| 0 <= i < te.len() && (#[trigger] te[i]).id == task_id
                    && completes_now(td[i], te[i]);
                assert(executed_only(td[w], te[w], t));
                assert(te[w].finish_time == Some((t + FIXED_ONE) as i64));
            }
        }
    }
}

/// A task later in the admission order is not among the admitted ones.
proof fn lemma_not_yet_admitted(order: Seq<usize>, n: int, ptr: int, p: int)
    requires
        is_index_permutation(order, n),
        0 <= ptr <= p < n,
    ensures
        !admitted(order, ptr, order[p]),
{
    if admitted(order, ptr, order[p]) {
        let q = choose|q: int| 0 <= q < order.take(ptr).len() && order.take(ptr)[q] == order[p];
        assert(order[q] == order[p]);
    }
}

proof fn lemma_outcome_admission(
    orig: Seq<Task>,
    tasks: Seq<Task>,
    order: Seq<usize>,
    p0: int,
    p1: int,
    ready0: Seq<usize>,
    ready1: Seq<usize>,
    cores: Seq<Option<usize>>,
    t: int,
)
    requires
        outcome_invariant(orig, tasks, order, p0, ready0, cores, t),
        0 <= p0 <= p1 <= order.len(),
        ready1 == ready0 + order.subrange(p0, p1),
    ensures
        outcome_invariant(orig, tasks, order, p1, ready1, cores, t),
{
    assert forall|c: int| 0 <= c < cores.len() implies (#[trigger] cores[c] matches Some(x)
        ==> admitted(order, p1, x) && tasks[x as int].start_time is Some) by {
        if let Some(x) = cores[c] {
            lemma_take_contains(order, p0, p1, x);
        }
    }
    assert forall|x: usize| #[trigger] ready1.contains(x) implies !run_completed(orig[x as int], tasks[x as int]) by {
        let q = choose|q: int| 0 <= q < ready1.len() && ready1[q] == x;
        if q >= ready0.len() {
            let pp = p0 + q - ready0.len();
            assert(ready1[q] == order.subrange(p0, p1)[q - ready0.len()]);
            assert(order.subrange(p0, p1)[q - ready0.len()] == order[pp]);
            assert(x == order[pp]);
            assert(!run_completed(orig[order[pp] as int], tasks[order[pp] as int]));
        } else {
            assert(ready0[q] == x);
            assert(ready0.contains(x));
        }
    }
}

proof fn lemma_outcome_tick(
    orig: Seq<Task>,
    order: Seq<usize>,
    ptr: int,
    ta: Seq<Task>,
    tb: Seq<Task>,
    tc: Seq<Task>,
    td: Seq<Task>,
    te: Seq<Task>,
    ra: Seq<usize>,
    rb: Seq<usize>,
    rf: Seq<usize>,
    ca: Seq<Option<usize>>,
    cb: Seq<Option<usize>>,
    cc: Seq<Option<usize>>,
    cd: Seq<Option<usize>>,
    ce: Seq<Option<usize>>,
    ranked: Seq<usize>,
    t: i64,
)
    requires
        outcome_invariant(orig, ta, order, ptr, ra, ca, t as int),
        is_index_permutation(order, orig.len() as int),
        orig.len() <= usize::MAX,
        0 <= t <= 0x4000_0000_0000_0000,
        0 <= ptr <= orig.len(),
        ta.len() == orig.len(),
        forall|x: usize| ra.contains(x) ==> admitted(order, ptr, x),
        // dropping
        tb.len() == ta.len(),
        forall|i: usize| i < ta.len() ==> {
            let was = #[trigger] ta[i as int];
            let now = tb[i as int];
            if ra.contains(i) && spec_laxity(was, t as int) < 0 {
                now == marked_dropped(was, t)
            } else {
                now == was
            }
        },
        forall|x: usize| rb.contains(x) ==> ra.contains(x),
        cb.len() == ca.len(),
        forall|c: int| 0 <= c < ca.len() ==> (#[trigger] cb[c] == ca[c] || cb[c] is None),
        forall|x: usize| #[trigger] rb.contains(x) ==> !run_dropped(orig[x as int], tb[x as int]),
        forall|c: int| 0 <= c < cb.len() ==> (#[trigger] cb[c] matches Some(x) ==> !run_dropped(orig[x as int], tb[x as int])),
        forall|x: usize| ranked.contains(x) ==> rb.contains(x),
        // dispatching
        tc.len() == tb.len(),
        forall|i: int| 0 <= i < tb.len() ==> dispatch_only(#[trigger] tb[i], tc[i]),
        cc.len() == cb.len(),
        forall|c: int| 0 <= c < cb.len() ==> (#[trigger] cc[c] != cb[c] ==> (cc[c] matches Some(x) && ranked.contains(x))),
        starts_only_ranked(tb, tc, ranked, t),
        dispatched_started(cb, cc, tc),
        td.len() == tc.len(),
        forall|i: int| 0 <= i < tc.len() ==> dispatch_only(#[trigger] tc[i], td[i]),
        cd.len() == cc.len(),
        forall|c: int| 0 <= c < cc.len() ==> (#[trigger] cd[c] != cc[c] ==> (cd[c] matches Some(x) && ranked.contains(x))),
        starts_only_ranked(tc, td, ranked, t),
        dispatched_started(cc, cd, td),
        // executing
        te.len() == td.len(),
        forall|i: int| 0 <= i < td.len() ==> executed_only(#[trigger] td[i], te[i], t as int),
        forall|i: int| 0 <= i < td.len() ==> (#[trigger] te[i]).remaining_time != td[i].remaining_time
            ==> on_some_core(cd, i as usize),
        ce.len() == cd.len(),
        forall|c: int| 0 <= c < cd.len() ==> (#[trigger] ce[c] == cd[c] || ce[c] is None),
        forall|x: usize| #[trigger] rf.contains(x) ==> !te[x as int].completed,
    ensures
        outcome_invariant(orig, te, order, ptr, rf, ce, t + FIXED_ONE),
{
    let n = orig.len() as int;
    // cores after dispatching hold admitted, started tasks that the run has not dropped
    assert forall|c: int| 0 <= c < cd.len() implies (#[trigger] cd[c] matches Some(x)
        ==> admitted(order, ptr, x) && td[x as int].start_time is Some && !run_dropped(orig[x as int], td[x as int])) by {
        if let Some(x) = cd[c] {
            if cd[c] != cc[c] || cc[c] != cb[c] {
                assert(ranked.contains(x));
                assert(rb.contains(x));
                assert(ra.contains(x));
                assert(!run_dropped(orig[x as int], tb[x as int]));
            } else {
                assert(cb[c] == ca[c]);
                assert(ca[c] == Some(x));
                assert(!run_dropped(orig[x as int], tb[x as int]));
            }
            assert(x < n);
            assert(ta[(x as usize) as int] == ta[x as int]);
            assert(dispatch_only(tb[x as int], tc[x as int]));
            assert(dispatch_only(tc[x as int], td[x as int]));
            if cd[c] != cc[c] {
                assert(td[x as int].start_time is Some);
            } else if cc[c] != cb[c] {
                assert(tc[x as int].start_time is Some);
            } else {
                assert(ta[x as int].start_time is Some);
                assert(tb[x as int].start_time == ta[x as int].start_time);
            }
        }
    }
    assert forall|c: int| 0 <= c < ce.len() implies (#[trigger] ce[c] matches Some(x)
        ==> admitted(order, ptr, x) && te[x as int].start_time is Some) by {
        if let Some(x) = ce[c] {
            assert(cd[c] == Some(x));
            assert(executed_only(td[x as int], te[x as int], t as int));
        }
    }
    assert forall|p: int| ptr <= p < order.len() implies !run_completed(orig[order[p] as int], #[trigger] te[order[p] as int]) by {
        let x = order[p];
        assert(x < n);
        assert(!run_completed(orig[x as int], ta[x as int]));
        assert(tb[(x as usize) as int] == ta[x as int] || tb[x as int].completed == ta[x as int].completed);
        assert(dispatch_only(tb[x as int], tc[x as int]));
        assert(dispatch_only(tc[x as int], td[x as int]));
        assert(executed_only(td[x as int], te[x as int], t as int));
        if te[x as int].remaining_time != td[x as int].remaining_time {
            assert(on_some_core(cd, x));
            let c = choose|c: int| 0 <= c < cd.len() && #[trigger] cd[c] == Some(x);
            lemma_not_yet_admitted(order, n, ptr, p);
        }
    }
    assert forall|i: int| 0 <= i < n && fresh(orig[i]) implies outcome_consistent(#[trigger] te[i])
        && (te[i].start_time matches Some(s) ==> s < t + FIXED_ONE)
        && (te[i].finish_time matches Some(f) ==> f <= t + FIXED_ONE) by {
        let x = i as usize;
        assert(outcome_consistent(ta[i]));
        assert(ta[(x as usize) as int] == ta[i]);
        assert(dispatch_only(tb[i], tc[i]));
        assert(dispatch_only(tc[i], td[i]));
        assert(executed_only(td[i], te[i], t as int));
        if ra.contains(x) {
            assert(!run_completed(orig[i], ta[i]));
        }
        // tb: dropped only from the ready queue, never a completed task
        assert(tb[i].completed == ta[i].completed && tb[i].start_time == ta[i].start_time
            && tb[i].finish_time == ta[i].finish_time);
        assert(outcome_consistent(tb[i]));
        assert(outcome_consistent(td[i]));
        assert(td[i].start_time matches Some(s) ==> s <= t) by {
            assert(starts_only_ranked(tb, tc, ranked, t));
            assert(starts_only_ranked(tc, td, ranked, t));
            assert(tc[i].start_time == tb[i].start_time || tc[i].start_time == Some(t));
            assert(td[i].start_time == tc[i].start_time || td[i].start_time == Some(t));
        }
        if te[i].remaining_time != td[i].remaining_time {
            assert(on_some_core(cd, x));
            let c = choose|c: int| 0 <= c < cd.len() && #[trigger] cd[c] == Some(x);
            assert(td[x as int].start_time is Some);
            assert(!run_dropped(orig[x as int], td[x as int]));
            assert(!td[i].dropped);
            assert(te[i].start_time == td[i].start_time);
            assert(te[i].dropped == td[i].dropped);
            if te[i].remaining_time <= 0 {
                assert(te[i].finish_time == Some((t + FIXED_ONE) as i64));
                assert((t + FIXED_ONE) as i64 == t + FIXED_ONE);
            }
            assert(outcome_consistent(te[i]));
        } else {
            assert(te[i] == td[i]);
        }
        assert(outcome_consistent(te[i]));
        assert(te[i].start_time matches Some(s) ==> s < t + FIXED_ONE);
        assert(te[i].finish_time matches Some(f) ==> f <= t + FIXED_ONE);
    }
}

/// A task the run starts does not start before it arrives.
pub open spec fn start_after_arrival(orig: Task, fin: Task) -> bool {
    fin.start_time matches Some(s) ==> (orig.start_time is None ==> orig.arrival_time <= s)
}

/// The run over `orig` ended where the state machine ends when tasks are
/// admitted in `order` and the scheduler ranks the ready queue of the
/// `k`-th tick as `rankings[k]`, each a ranking `rule` allows: with these
/// tasks, events and statistics.
pub open spec fn machine_run(
    orig: Seq<Task>,
    config: SimConfig,
    order: Seq<usize>,
    rankings: Seq<Seq<usize>>,
    rule: RankingRule,
    tasks: Seq<Task>,
    events: Seq<SimEvent>,
    r: SimResult,
) -> bool {
    let start = initial_state(orig, config.num_cores as nat);
    let fin = run_from(start, order, rankings, 0, horizon(orig), config);
    &&& admission_order(order, orig)
    &&& rankings_fit(start, order, rankings, 0, horizon(orig), config, rule)
    &&& tasks == fin.tasks
    &&& events == fin.events
    &&& r.total_context_switches == fin.total_context_switches
    &&& r.makespan == fin.last_completion_time
    &&& summary_of(tasks, r.total_context_switches, r.makespan, r)
}

/// The admission order of a task set is unique.
pub proof fn lemma_admission_order_unique(o1: Seq<usize>, o2: Seq<usize>, tasks: Seq<Task>)
    requires
        admission_order(o1, tasks),
        admission_order(o2, tasks),
        tasks.len() <= usize::MAX,
    ensures
        o1 == o2,
{
    let n = tasks.len();
    let pool = Seq::new(n, |i: int| i as usize);
    let key = |x: usize| arrival_key(tasks, x);
    assert(pool.no_duplicates());
    assert forall|x: usize| pool.contains(x) implies (#[trigger] key(x)).idx == x by {}
    assert forall|o: Seq<usize>| admission_order(o, tasks) implies is_ranking(o, pool, key, RankRule::ByScore) by {
        assert forall|x: usize| o.contains(x) <==> pool.contains(x) by {
            if o.contains(x) {
                let p = choose|p: int| 0 <= p < o.len() && o[p] == x;
                assert(o[p] < n);
                assert(pool[x as int] == x);
            }
            if pool.contains(x) {
                let i = choose|i: int| 0 <= i < pool.len() && pool[i] == x;
                assert(x < n);
            }
        }
        assert forall|i: int| 0 <= i < o.len() - 1 implies !ranks_after(RankRule::ByScore, key(#[trigger] o[i]), key(o[i + 1])) by {
            assert(o[i] != o[i + 1]);
        }
    }
    lemma_by_score_ranking_unique(o1, o2, pool, key);
}

/// Two runs of one task set and configuration, under a scheduler that ranks
/// each ready queue in one way only, end alike: the same tasks, the same
/// event trace and the same statistics.
pub proof fn lemma_runs_agree(
    orig: Seq<Task>,
    config: SimConfig,
    rule: RankingRule,
    o1: Seq<usize>,
    r1: Seq<Seq<usize>>,
    tasks1: Seq<Task>,
    events1: Seq<SimEvent>,
    res1: SimResult,
    o2: Seq<usize>,
    r2: Seq<Seq<usize>>,
    tasks2: Seq<Task>,
    events2: Seq<SimEvent>,
    res2: SimResult,
)
    requires
        rule_is_functional(rule),
        orig.len() <= usize::MAX,
        machine_run(orig, config, o1, r1, rule, tasks1, events1, res1),
        machine_run(orig, config, o2, r2, rule, tasks2, events2, res2),
    ensures
        tasks1 == tasks2,
        events1 == events2,
        res1 == res2,
{
    lemma_admission_order_unique(o1, o2, orig);
    let start = initial_state(orig, config.num_cores as nat);
    lemma_run_from_deterministic(start, o1, r1, r2, 0, horizon(orig), config, rule);
    broadcast use vstd::array::group_array_axioms;
    assert(res1.tasks_by_priority =~= res2.tasks_by_priority);
    assert(res1.misses_by_priority =~= res2.misses_by_priority);
}

/// Global EDF, partitioned EDF and MLLF rank each duplicate-free ready
/// queue in one way only (ties go by task index), so their runs are
/// reproducible; so do these schedulers when chosen at run time.
pub proof fn lemma_deterministic_rankings(p: PartitionedEdf, s: BuiltScheduler)
    ensures
        rule_is_functional(GlobalEdf.rule()),
        rule_is_functional(p.rule()),
        rule_is_functional(Mllf.rule()),
        s is GlobalEdf || s is PartitionedEdf || s is Mllf ==> rule_is_functional(s.rule()),
{
    assert forall|ready: Seq<usize>, tasks: Seq<Task>, a: Seq<usize>, b: Seq<usize>|
        ready.no_duplicates() && #[trigger] edf_ranking(ready, tasks, a)
            && #[trigger] edf_ranking(ready, tasks, b) implies a == b by {
        lemma_by_score_ranking_unique(a, b, ready, |x: usize| edf_key(tasks, x));
    }
    assert forall|ready: Seq<usize>, tasks: Seq<Task>, t: int, a: Seq<usize>, b: Seq<usize>|
        ready.no_duplicates() && #[trigger] laxity_ranking(ready, tasks, t, a)
            && #[trigger] laxity_ranking(ready, tasks, t, b) implies a == b by {
        lemma_by_score_ranking_unique(a, b, ready, |x: usize| laxity_key(tasks, t, x));
    }
}

/// Runs one full simulation episode over `tasks` with deadlines already
/// computed. Mutates `tasks` in place to record start/finish/drop
/// bookkeeping, and returns the event trace plus aggregate statistics.
///
/// The run ends where the state machine of `machine` ends, for the
/// rankings the scheduler gave (`machine_run`). Every task that arrives by
/// its deadline with work to do ends completed or dropped; a task is only
/// dropped once its laxity is negative, and never starts before it arrives;
/// a task that enters the run fresh ends completed or dropped, never both
/// (`task_outcome`). The trace holds one `Started` event per context switch,
/// the tasks' own switch counters grow by the same total, and every
/// `Preempted` event is matched by one preemptive `Started` event. When
/// every task enters fresh, the makespan is the latest finish time (0 when
/// none finished) and every `Completed` event names a task that finished at
/// the event's time.
#[verifier::spinoff_prover]
#[verifier::rlimit(40)]
pub fn run_simulation<S: Scheduler>(tasks: &mut Vec<Task>, config: &SimConfig, scheduler: &mut S)
    -> (res: (Vec<SimEvent>, SimResult))
    requires
        old(scheduler).needs_cores() ==> config.num_cores > 0,
        simulation_fits(old(tasks)@, config.num_cores as int),
    ensures
        final(tasks)@.len() == old(tasks)@.len(),
        forall|i: int| 0 <= i < old(tasks)@.len() ==> same_static(#[trigger] old(tasks)@[i], final(tasks)@[i]),
        forall|i: int| 0 <= i < old(tasks)@.len() ==> accounted_for(#[trigger] old(tasks)@[i], final(tasks)@[i]),
        summary_of(final(tasks)@, res.1.total_context_switches, res.1.makespan, res.1),
        summary_adds_up(res.1),
        res.1.total_tasks == old(tasks)@.len(),
        0 <= res.1.makespan <= horizon(old(tasks)@) + FIXED_ONE,
        count_started(res.0@) == res.1.total_context_switches,
        switch_sum(final(tasks)@) == switch_sum(old(tasks)@) + res.1.total_context_switches,
        count_preempted(res.0@) == count_preemptive_starts(res.0@),
        all_fresh(old(tasks)@) ==> res.1.makespan == latest_finish(final(tasks)@),
        all_fresh(old(tasks)@) ==> completions_found(res.0@, final(tasks)@),
        (forall|i: int| 0 <= i < old(tasks)@.len() ==> (#[trigger] old(tasks)@[i]).context_switches_incurred == 0)
            ==> switch_sum(final(tasks)@) == res.1.total_context_switches,
        forall|i: int| 0 <= i < old(tasks)@.len() ==> outcome_recorded(#[trigger] old(tasks)@[i], final(tasks)@[i]),
        forall|i: int| 0 <= i < old(tasks)@.len() ==> drop_justified(#[trigger] old(tasks)@[i], final(tasks)@[i]),
        forall|i: int| 0 <= i < old(tasks)@.len() ==> start_after_arrival(#[trigger] old(tasks)@[i], final(tasks)@[i]),
        forall|i: int| 0 <= i < old(tasks)@.len() ==> task_outcome(#[trigger] old(tasks)@[i], final(tasks)@[i]),
        exists|order: Seq<usize>, rankings: Seq<Seq<usize>>|
            #[trigger] machine_run(old(tasks)@, *config, order, rankings, old(scheduler).rule(), final(tasks)@, res.0@, res.1),
{
    let ghost orig = tasks@;
    let n = tasks.len();
    let mut events: Vec<SimEvent> = Vec::new();
    let mut cores: Vec<Option<usize>> = Vec::new();
    let mut overhead: Vec<i64> = Vec::new();
    let mut c: usize = 0;
    while c < config.num_cores
        invariant
            c <= config.num_cores,
            cores@.len() == c,
            overhead@.len() == c,
            forall|d: int| 0 <= d < c ==> (#[trigger] cores@[d]) is None,
            forall|d: int| 0 <= d < c ==> (#[trigger] overhead@[d]) == 0,
        decreases config.num_cores - c,
    {
        cores.push(None);
        overhead.push(0);
        c = c + 1;
    }

    // Task indices sorted by arrival time for sequential admission.
    let order = arrival_order(tasks);
    let mut next_arrival_ptr: usize = 0;
    let mut ready_queue: Vec<usize> = Vec::new();

    proof {
        lemma_max_deadline(orig);
    }
    let mut latest: i64 = 0;
    let mut i: usize = 0;
    while i < n
        invariant
            i <= n == orig.len() == tasks@.len(),
            tasks@ == orig,
            latest == max_deadline(orig.take(i as int)),
        decreases n - i,
    {
        assert(orig.take(i as int + 1).drop_last() =~= orig.take(i as int));
        if tasks[i].deadline > latest {
            latest = tasks[i].deadline;
        }
        i = i + 1;
    }
    assert(orig.take(n as int) =~= orig);
    // safety horizon: 50 ticks past the latest deadline
    let stop_time: i64 = latest + 50 * FIXED_ONE;

    let mut t: i64 = 0;
    let ghost mut k: int = 0;
    let mut total_context_switches: u32 = 0;
    let mut last_completion_time: i64 = 0;
    let ghost s0 = initial_state(orig, config.num_cores as nat);
    let ghost rule = scheduler.rule();
    let ghost mut hist: Seq<Seq<usize>> = seq![];
    proof {
        assert(cores@ =~= s0.cores);
        assert(overhead@ =~= s0.overhead);
        assert(events@ =~= s0.events);
        assert(ready_queue@ =~= s0.ready);
        assert forall|future: Seq<Seq<usize>>| hist + future == future by {
            assert(hist + future =~= future);
        }
        if all_fresh(orig) {
            lemma_latest_finish_tick(orig, orig, 0);
        }
        assert(outcome_invariant(orig, tasks@, order@, 0, ready_queue@, cores@, 0)) by {
            assert forall|p: int| 0 <= p < order@.len() implies !run_completed(orig[order@[p] as int],
                #[trigger] tasks@[order@[p] as int]) by {
            }
        }
    }

    loop
        invariant
            run_invariant(orig, tasks@, order@, next_arrival_ptr as int, ready_queue@, cores@,
                total_context_switches as int, config.num_cores as int, t as int, k),
            overhead@.len() == cores@.len(),
            n == orig.len(),
            scheduler.needs_cores() == old(scheduler).needs_cores(),
            scheduler.rule() == old(scheduler).rule(),
            rule == old(scheduler).rule(),
            old(scheduler).needs_cores() ==> config.num_cores > 0,
            simulation_fits(orig, config.num_cores as int),
            stop_time == horizon(orig),
            0 <= max_deadline(orig) <= 0x1000_0000_0000_0000,
            forall|i: int| 0 <= i < orig.len() ==> (#[trigger] orig[i]).deadline <= max_deadline(orig),
            t < stop_time + FIXED_ONE,
            0 <= last_completion_time <= t,
            count_started(events@) == total_context_switches,
            forall|i: int| 0 <= i < orig.len() ==> outcome_recorded(#[trigger] orig[i], tasks@[i]),
            drop_invariant(orig, tasks@, order@, next_arrival_ptr as int, ready_queue@, cores@),
            forall|i: int| 0 <= i < orig.len() ==> start_after_arrival(#[trigger] orig[i], tasks@[i]),
            outcome_invariant(orig, tasks@, order@, next_arrival_ptr as int, ready_queue@, cores@, t as int),
            switch_sum(tasks@) == switch_sum(orig) + total_context_switches,
            all_fresh(orig) ==> last_completion_time == latest_finish(tasks@),
            all_fresh(orig) ==> completions_found(events@, tasks@),
            all_fresh(orig) ==> forall|c: int| 0 <= c < cores@.len() ==> (#[trigger] cores@[c] matches Some(x)
                ==> !tasks@[x as int].completed),
            count_preempted(events@) == count_preemptive_starts(events@),
            forall|p: int| 0 <= p < next_arrival_ptr ==> orig[#[trigger] order@[p] as int].arrival_time <= t,
            s0 == initial_state(orig, config.num_cores as nat),
            forall|future: Seq<Seq<usize>>| #[trigger] run_from(s0, order@, hist + future, 0, horizon(orig), *config)
                == run_from(state_of(tasks@, ready_queue@, cores@, overhead@, events@, total_context_switches as int,
                    last_completion_time as int, next_arrival_ptr as int), order@, future, t as int, horizon(orig), *config),
            forall|future: Seq<Seq<usize>>| #[trigger] rankings_fit(s0, order@, hist + future, 0, horizon(orig), *config, rule)
                == rankings_fit(state_of(tasks@, ready_queue@, cores@, overhead@, events@, total_context_switches as int,
                    last_completion_time as int, next_arrival_ptr as int), order@, future, t as int, horizon(orig), *config,
                    rule),
        ensures
            tasks_invariant(orig, tasks@, order@, next_arrival_ptr as int, ready_queue@, t as int),
            (t >= stop_time && t > 0) || (next_arrival_ptr >= orig.len() && ready_queue@.len() == 0),
            0 <= last_completion_time <= stop_time + FIXED_ONE,
            count_started(events@) == total_context_switches,
            forall|i: int| 0 <= i < orig.len() ==> outcome_recorded(#[trigger] orig[i], tasks@[i]),
            t >= stop_time || finished(state_of(tasks@, ready_queue@, cores@, overhead@, events@,
                total_context_switches as int, last_completion_time as int, next_arrival_ptr as int), order@),
        decreases stop_time + FIXED_ONE - t,
    {
        if t >= stop_time {
            break;
        }
        let ghost ptr_before = next_arrival_ptr;
        let ghost ready_before = ready_queue@;
        let ghost cur_top = state_of(tasks@, ready_queue@, cores@, overhead@, events@, total_context_switches as int,
            last_completion_time as int, next_arrival_ptr as int);
        // ---- 1. Admit newly arrived tasks ----
        admit_arrivals(tasks, &order, &mut next_arrival_ptr, &mut ready_queue, t, scheduler, config);
        let ghost state_adm = state_of(tasks@, ready_queue@, cores@, overhead@, events@, total_context_switches as int,
            last_completion_time as int, next_arrival_ptr as int);
        proof {
            lemma_admit_due(cur_top, order@, t as int, next_arrival_ptr as int);
            assert(admit_due(cur_top, order@, t as int) == state_adm);
            lemma_after_admission(orig, tasks@, order@, ptr_before as int, next_arrival_ptr as int, ready_before, ready_queue@, t as int);
            lemma_drop_invariant_admission(orig, tasks@, order@, ptr_before as int, next_arrival_ptr as int,
                ready_before, ready_queue@, cores@);
            lemma_outcome_admission(orig, tasks@, order@, ptr_before as int, next_arrival_ptr as int,
                ready_before, ready_queue@, cores@, t as int);
            assert forall|p: int| 0 <= p < next_arrival_ptr implies orig[#[trigger] order@[p] as int].arrival_time <= t by {
                if p >= ptr_before {
                    assert(tasks@[order@[p] as int].arrival_time <= t);
                    assert(same_static(orig[order@[p] as int], tasks@[order@[p] as int]));
                }
            }
        }
        // Termination check: nothing left to admit, ready queue empty,
        // and all cores idle => simulation is done.
        if next_arrival_ptr >= order.len() && ready_queue.len() == 0 && all_idle(&cores) {
            proof {
                assert(finished(state_adm, order@));
                assert(admit_due(state_adm, order@, t as int) == state_adm);
                assert forall|future: Seq<Seq<usize>>| #[trigger] run_from(s0, order@, hist + future, 0, horizon(orig), *config)
                    == run_from(state_adm, order@, future, t as int, horizon(orig), *config) by {
                    assert(run_from(s0, order@, hist + future, 0, horizon(orig), *config)
                        == run_from(cur_top, order@, future, t as int, horizon(orig), *config));
                }
                assert forall|future: Seq<Seq<usize>>| #[trigger] rankings_fit(s0, order@, hist + future, 0, horizon(orig), *config, rule)
                    == rankings_fit(state_adm, order@, future, t as int, horizon(orig), *config, rule) by {
                    assert(rankings_fit(s0, order@, hist + future, 0, horizon(orig), *config, rule)
                        == rankings_fit(cur_top, order@, future, t as int, horizon(orig), *config, rule));
                }
            }
            break;
        }
        let ghost tasks_a = tasks@;
        let ghost ready_a = ready_queue@;

        // ---- 2. Drop any task whose laxity has gone negative ----
        let ghost cores_a = cores@;
        let ghost state_a = state_of(tasks@, ready_queue@, cores@, overhead@, events@,
            total_context_switches as int, last_completion_time as int, next_arrival_ptr as int);
        let ghost events_a = events@;
        drop_negative_laxity(tasks, &mut ready_queue, &mut cores, &mut overhead, &mut events, t, Ghost(state_a));
        let ghost events_b = events@;
        proof {
            lemma_cores_freed(cores_a, cores@, n as int);
        }
        let ghost tasks_b = tasks@;
        let ghost ready_b = ready_queue@;
        proof {
            lemma_after_drop(orig, tasks_a, tasks_b, order@, next_arrival_ptr as int, ready_a, ready_b, t);
            lemma_drop_invariant_drop(orig, tasks_a, tasks_b, order@, next_arrival_ptr as int, ready_a, ready_b,
                cores_a, cores@, t);
            assert forall|i: int| 0 <= i < orig.len() implies outcome_recorded(#[trigger] orig[i], tasks_b[i]) by {
                assert(tasks_a[(i as usize) as int] == tasks_a[i]);
            }
        }

        // ---- 3. Rank the ready queue using the injected scheduler ----
        let ranked = scheduler.rank_tasks(ready_queue.as_slice(), tasks.as_slice(), t, config);
        proof {
            lemma_contained_below(ranked@, ready_b, seq![], n as int);
            lemma_tick_budget(config.num_cores as int, k, stop_time as int);
        }

        // ---- 4. Preemption decisions, per busy core ----
        let ghost total_b = total_context_switches;
        let ghost cores_b = cores@;
        let ghost state_b = state_of(tasks@, ready_queue@, cores@, overhead@, events@,
            total_context_switches as int, last_completion_time as int, next_arrival_ptr as int);
        let ghost events_b2 = events@;
        preempt_running(tasks, &mut cores, &mut overhead, &mut events, &mut total_context_switches, &ranked, t, config,
            Ghost(2 * config.num_cores as int), Ghost(state_b));
        let ghost tasks_c = tasks@;
        let ghost cores_c = cores@;
        let ghost total_c = total_context_switches;

        // ---- 5. Assign waiting tasks to any free cores ----
        let ghost state_c = state_of(tasks@, ready_queue@, cores@, overhead@, events@,
            total_context_switches as int, last_completion_time as int, next_arrival_ptr as int);
        let ghost events_c = events@;
        fill_idle(tasks, &mut cores, &mut overhead, &mut events, &mut total_context_switches, &ranked, t, config,
            Ghost(2 * config.num_cores as int - (total_c - total_b)), Ghost(state_c));
        let ghost tasks_d = tasks@;

        // ---- 6. Execute one tick of work on every busy, non-switching core ----
        let ghost cores_d = cores@;
        let ghost state_d = state_of(tasks@, ready_queue@, cores@, overhead@, events@,
            total_context_switches as int, last_completion_time as int, next_arrival_ptr as int);
        let ghost lct_d = last_completion_time;
        let ghost events_d = events@;
        execute_tick(tasks, &mut cores, &mut overhead, &mut events, &mut last_completion_time, t, Ghost(state_d));
        proof {
            lemma_cores_freed(cores_d, cores@, n as int);
        }
        let ghost tasks_e = tasks@;
        proof {
            assert forall|i: int| 0 <= i < orig.len() implies start_after_arrival(#[trigger] orig[i], tasks_e[i]) by {
                assert(drop_fields_only(tasks_a[i], tasks_b[i]));
                assert(executed_only(tasks_d[i], tasks_e[i], t as int));
                if tasks_d[i].start_time != tasks_b[i].start_time {
                    let x = i as usize;
                    assert(ranked@.contains(x));
                    assert(ready_b.contains(x));
                    assert(admitted(order@, next_arrival_ptr as int, x));
                    let q = choose|q: int| 0 <= q < order@.take(next_arrival_ptr as int).len()
                        && order@.take(next_arrival_ptr as int)[q] == x;
                    assert(order@[q] == x);
                }
            }
            assert forall|i: int| 0 <= i < orig.len() implies outcome_recorded(#[trigger] orig[i], tasks_e[i]) by {
                assert(dispatch_only(tasks_b[i], tasks_c[i]));
                assert(dispatch_only(tasks_c[i], tasks_d[i]));
                assert(executed_only(tasks_d[i], tasks_e[i], t as int));
            }
        }

        // ---- 7. Drop completed/dropped tasks from the ready queue ----
        ready_queue = retain_unfinished(&ready_queue, tasks);
        let ghost state_f = state_of(tasks@, ready_queue@, cores@, overhead@, events@, total_context_switches as int,
            last_completion_time as int, next_arrival_ptr as int);
        proof {
            let cfg = *config;
            let a = state_adm;
            lemma_drop_frame(a, a.ready, a.ready.len() as int, t as int);
            assert(state_b == drop_pass(a, t as int));
            lemma_preempt_frame(state_b, ranked@, state_b.cores.len() as int, t as int, cfg);
            assert(state_c == preempt_upto(state_b, ranked@, state_b.cores.len() as int, t as int, cfg));
            lemma_fill_frame(state_c, ranked@, state_c.cores.len() as int, t as int, cfg);
            assert(state_d == fill_upto(state_c, ranked@, state_c.cores.len() as int, t as int, cfg));
            lemma_execute_frame(state_d, state_d.cores.len() as int, t as int);
            let e = execute_upto(state_d, state_d.cores.len() as int, t as int);
            assert(state_f == tick(a, ranked@, t as int, cfg));
            assert(ranking_of(ranked@, drop_pass(a, t as int).ready));
            assert(drop_pass(a, t as int).ready.no_duplicates());
            assert(rule(drop_pass(a, t as int).ready, drop_pass(a, t as int).tasks, t as int, cfg, ranked@));
        }
        proof {
            lemma_after_tick(orig, tasks_b, tasks_c, tasks_d, tasks_e, order@, next_arrival_ptr as int,
                ready_b, ready_queue@, t as int);
            lemma_drop_invariant_tick(orig, tasks_b, tasks_c, tasks_d, tasks_e, order@, next_arrival_ptr as int,
                ready_b, ready_queue@, cores_b, cores_c, cores_d, cores@, ranked@, t as int);
            lemma_unfinished_props(ready_b, tasks_e);
            lemma_nonnegative_laxity_props(ready_a, tasks_a, t as int);
            assert forall|i: int| 0 <= i < tasks_a.len() implies (#[trigger] tasks_a[i]).context_switches_incurred
                == tasks_b[i].context_switches_incurred by {
                assert(tasks_a[(i as usize) as int] == tasks_a[i]);
            }
            lemma_switch_sum_same(tasks_a, tasks_b);
            assert forall|i: int| 0 <= i < tasks_d.len() implies (#[trigger] tasks_d[i]).context_switches_incurred
                == tasks_e[i].context_switches_incurred by {
                assert(executed_only(tasks_d[i], tasks_e[i], t as int));
            }
            lemma_switch_sum_same(tasks_d, tasks_e);
            if all_fresh(orig) {
                assert forall|i: int| 0 <= i < tasks_a.len() implies (#[trigger] tasks_b[i]).finish_time
                    == tasks_a[i].finish_time by {
                    assert(tasks_a[(i as usize) as int] == tasks_a[i]);
                }
                assert forall|i: int| 0 <= i < tasks_a.len() implies drop_fields_only(#[trigger] tasks_a[i], tasks_b[i]) by {
                    assert(tasks_a[(i as usize) as int] == tasks_a[i]);
                }
                assert forall|x: usize| ranked@.contains(x) implies ready_a.contains(x) by {
                    assert(ready_b.contains(x));
                }
                assert(events_b2 == events_b);
                lemma_completions_tick(orig, tasks_a, tasks_b, tasks_c, tasks_d, tasks_e, events_a, events_b, events_c,
                    events_d, events@, ready_a, cores_a, cores_b, cores_c, cores_d, cores@, ranked@, t as int);
                lemma_makespan_tick(orig, tasks_a, tasks_b, tasks_c, tasks_d, tasks_e, lct_d as int,
                    last_completion_time as int, t as int);
            }
            lemma_outcome_tick(orig, order@, next_arrival_ptr as int, tasks_a, tasks_b, tasks_c, tasks_d, tasks_e,
                ready_a, ready_b, ready_queue@, cores_a, cores_b, cores_c, cores_d, cores@, ranked@, t);
        }

        let ghost t_now = t as int;
        t = t + FIXED_ONE;
        proof {
            k = k + 1;
            let r = ranked@;
            let cfg = *config;
            assert(!finished(state_adm, order@));
            assert forall|future: Seq<Seq<usize>>| #[trigger] run_from(s0, order@, hist.push(r) + future, 0, horizon(orig), cfg)
                == run_from(state_f, order@, future, t as int, horizon(orig), cfg) by {
                let f2 = seq![r] + future;
                assert(hist.push(r) + future =~= hist + f2);
                assert(f2[0] == r);
                assert(f2.drop_first() =~= future);
                assert(run_from(s0, order@, hist + f2, 0, horizon(orig), cfg)
                    == run_from(cur_top, order@, f2, t_now, horizon(orig), cfg));
            }
            assert forall|future: Seq<Seq<usize>>| #[trigger] rankings_fit(s0, order@, hist.push(r) + future, 0, horizon(orig), cfg, rule)
                == rankings_fit(state_f, order@, future, t as int, horizon(orig), cfg, rule) by {
                let f2 = seq![r] + future;
                assert(hist.push(r) + future =~= hist + f2);
                assert(f2[0] == r);
                assert(f2.drop_first() =~= future);
                assert(rankings_fit(s0, order@, hist + f2, 0, horizon(orig), cfg, rule)
                    == rankings_fit(cur_top, order@, f2, t_now, horizon(orig), cfg, rule));
            }
            hist = hist.push(r);
        }
    }

    proof {
        lemma_run_end(orig, tasks@, order@, next_arrival_ptr as int, ready_queue@, t as int);
    }
    let result = summarize(tasks, total_context_switches, last_completion_time);
    proof {
        lemma_summary_consistent(tasks@, total_context_switches, last_completion_time, result);
    }
    proof {
        if forall|i: int| 0 <= i < orig.len() ==> (#[trigger] orig[i]).context_switches_incurred == 0 {
            lemma_switch_sum_zero(orig);
        }
    }
    proof {
        assert forall|i: int| 0 <= i < orig.len() implies task_outcome(#[trigger] orig[i], tasks@[i]) by {
            assert(accounted_for(orig[i], tasks@[i]));
            assert(outcome_recorded(orig[i], tasks@[i]));
            assert(drop_justified(orig[i], tasks@[i]));
            assert(start_after_arrival(orig[i], tasks@[i]));
            if fresh(orig[i]) {
                assert(outcome_consistent(tasks@[i]));
            }
        }
    }
    proof {
        let cfg = *config;
        let fin_state = state_of(tasks@, ready_queue@, cores@, overhead@, events@, total_context_switches as int,
            last_completion_time as int, next_arrival_ptr as int);
        let empty: Seq<Seq<usize>> = seq![];
        assert(hist + empty =~= hist);
        assert(run_from(s0, order@, hist + empty, 0, horizon(orig), cfg)
            == run_from(fin_state, order@, empty, t as int, horizon(orig), cfg));
        assert(rankings_fit(s0, order@, hist + empty, 0, horizon(orig), cfg, rule)
            == rankings_fit(fin_state, order@, empty, t as int, horizon(orig), cfg, rule));
        if t < stop_time {
            assert(admit_due(fin_state, order@, t as int) == fin_state);
        }
        assert(run_from(fin_state, order@, empty, t as int, horizon(orig), cfg) == fin_state);
        assert(rankings_fit(fin_state, order@, empty, t as int, horizon(orig), cfg, rule));
        assert(admission_order(order@, orig));
    }
    let res = (events, result);
    proof {
        assert(machine_run(orig, *config, order@, hist, rule, tasks@, res.0@, res.1));
    }
    res
}

} // verus!
