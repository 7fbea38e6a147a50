//! The simulation as a state machine: the state of a run, and what each
//! pass of a tick does to it. `simulator::run_simulation` is proved to end
//! in the state this machine reaches, for the rankings its scheduler gave.

use vstd::prelude::*;
use crate::task::{Task, FIXED_ONE, spec_laxity};
use crate::simulator::{
    SimConfig, SimEvent, DropReason, marked_dropped, on_some_core, spec_should_preempt, unfinished, cores_hold_below,
};
use crate::scheduler::indices_below;

verus! {

/// The state of a run between two passes.
pub struct SimState {
    pub tasks: Seq<Task>,
    /// The admitted tasks still waiting or running, in admission order.
    pub ready: Seq<usize>,
    /// The task each core holds.
    pub cores: Seq<Option<usize>>,
    /// The context-switch time each core still has to spend.
    pub overhead: Seq<i64>,
    pub events: Seq<SimEvent>,
    pub total_context_switches: int,
    pub last_completion_time: int,
    /// How many tasks of the admission order have been admitted.
    pub ptr: int,
}

/// The state a run starts in: nothing admitted, every core idle.
pub open spec fn initial_state(tasks: Seq<Task>, num_cores: nat) -> SimState {
    SimState {
        tasks,
        ready: seq![],
        cores: Seq::new(num_cores, |c: int| None::<usize>),
        overhead: Seq::new(num_cores, |c: int| 0i64),
        events: seq![],
        total_context_switches: 0,
        last_completion_time: 0,
        ptr: 0,
    }
}

/// The tasks of `order` that have arrived by `t` join the ready queue, in order.
pub open spec fn admit_due(s: SimState, order: Seq<usize>, t: int) -> SimState
    decreases order.len() - s.ptr,
{
    if 0 <= s.ptr < order.len() && s.tasks[order[s.ptr] as int].arrival_time <= t {
        admit_due(SimState { ready: s.ready.push(order[s.ptr]), ptr: s.ptr + 1, ..s }, order, t)
    } else {
        s
    }
}

/// Nothing is left to admit, nothing waits and every core is idle.
pub open spec fn finished(s: SimState, order: Seq<usize>) -> bool {
    &&& s.ptr >= order.len()
    &&& s.ready.len() == 0
    &&& forall|c: int| 0 <= c < s.cores.len() ==> (#[trigger] s.cores[c]) is None
}

/// Task `idx` is dropped at `t`: it leaves every core it held.
pub open spec fn drop_task(s: SimState, idx: usize, t: int) -> SimState {
    SimState {
        tasks: s.tasks.update(idx as int, marked_dropped(s.tasks[idx as int], t as i64)),
        cores: Seq::new(s.cores.len(), |c: int| if s.cores[c] == Some(idx) { None } else { s.cores[c] }),
        overhead: Seq::new(s.overhead.len(), |c: int| if s.cores[c] == Some(idx) { 0i64 } else { s.overhead[c] }),
        events: s.events.push(
            SimEvent::Dropped { time: t as i64, task_id: s.tasks[idx as int].id, reason: DropReason::NegativeLaxity },
        ),
        ..s
    }
}

/// The drop pass over the first `i` tasks of `pool`: a task with negative
/// laxity is dropped, the others are kept in the ready queue.
pub open spec fn drop_upto(s: SimState, pool: Seq<usize>, i: int, t: int) -> SimState
    decreases i,
{
    if i <= 0 {
        SimState { ready: seq![], ..s }
    } else {
        let p = drop_upto(s, pool, i - 1, t);
        let idx = pool[i - 1];
        if spec_laxity(p.tasks[idx as int], t) < 0 {
            drop_task(p, idx, t)
        } else {
            SimState { ready: p.ready.push(idx), ..p }
        }
    }
}

/// The drop pass over the whole ready queue.
pub open spec fn drop_pass(s: SimState, t: int) -> SimState {
    drop_upto(s, s.ready, s.ready.len() as int, t)
}

/// The first task of `ranked`, from position `j` on, that is on no core.
pub open spec fn first_waiting_from(ranked: Seq<usize>, cores: Seq<Option<usize>>, j: int) -> Option<usize>
    decreases ranked.len() - j,
{
    if j < 0 || j >= ranked.len() {
        None
    } else if !on_some_core(cores, ranked[j]) {
        Some(ranked[j])
    } else {
        first_waiting_from(ranked, cores, j + 1)
    }
}

/// The best-ranked task that is on no core.
pub open spec fn first_waiting_spec(ranked: Seq<usize>, cores: Seq<Option<usize>>) -> Option<usize> {
    first_waiting_from(ranked, cores, 0)
}

/// Task `x` is put on core `c` at `t`: the core pays the switch cost, the
/// task is started if it never was, and the switch is counted.
pub open spec fn dispatch_state(s: SimState, c: int, x: usize, t: int, cost: i64, preemptive: bool) -> SimState {
    let tk = s.tasks[x as int];
    let started = Task {
        start_time: if tk.start_time is None { Some(t as i64) } else { tk.start_time },
        context_switches_incurred: (tk.context_switches_incurred + 1) as u32,
        ..tk
    };
    SimState {
        tasks: s.tasks.update(x as int, started),
        cores: s.cores.update(c, Some(x)),
        overhead: s.overhead.update(c, cost),
        events: s.events.push(SimEvent::Started { time: t as i64, task_id: tk.id, core: c as usize, preemptive }),
        total_context_switches: s.total_context_switches + 1,
        ..s
    }
}

/// The preemption decision of core `c`: a busy core, not switching, gives
/// way to the best waiting task when the preemption test holds.
pub open spec fn preempt_core(s: SimState, ranked: Seq<usize>, c: int, t: int, config: SimConfig) -> SimState {
    if s.overhead[c] > 0 {
        s
    } else {
        match s.cores[c] {
            None => s,
            Some(running) => match first_waiting_spec(ranked, s.cores) {
                None => s,
                Some(x) => if spec_should_preempt(
                    spec_laxity(s.tasks[x as int], t),
                    config.critical_coefficient as int,
                    s.tasks[running as int].remaining_time as int,
                ) {
                    let noted = SimState {
                        events: s.events.push(
                            SimEvent::Preempted { time: t as i64, task_id: s.tasks[running as int].id, core: c as usize },
                        ),
                        ..s
                    };
                    dispatch_state(noted, c, x, t, config.context_switch_cost, true)
                } else {
                    s
                },
            },
        }
    }
}

/// The preemption test of the simulation: a busy core that is not in the
/// middle of a switch gives way to the best-ranked waiting task exactly
/// when that task's laxity (deadline - t - remaining time) exceeds the
/// critical coefficient plus twice the running task's remaining time.
pub proof fn lemma_preempt_core_when_laxity_exceeds(s: SimState, ranked: Seq<usize>, c: int, t: int, config: SimConfig)
    requires
        0 <= c < s.cores.len(),
        c < s.overhead.len(),
        s.overhead[c] <= 0,
        s.cores[c] is Some,
        ranked.len() > 0,
        !on_some_core(s.cores, ranked[0]),
    ensures
        ({
            let x = ranked[0];
            let r = s.cores[c]->0;
            preempt_core(s, ranked, c, t, config).cores[c] == (if s.tasks[x as int].deadline - t - s.tasks[x as int].remaining_time
                > config.critical_coefficient + 2 * s.tasks[r as int].remaining_time {
                Some(x)
            } else {
                Some(r)
            })
        }),
{
    assert(first_waiting_spec(ranked, s.cores) == Some(ranked[0]));
}

/// The preemption pass over the first `c` cores.
pub open spec fn preempt_upto(s: SimState, ranked: Seq<usize>, c: int, t: int, config: SimConfig) -> SimState
    decreases c,
{
    if c <= 0 {
        s
    } else {
        preempt_core(preempt_upto(s, ranked, c - 1, t, config), ranked, c - 1, t, config)
    }
}

/// The assignment of core `c`: an idle core, not switching, takes the best
/// waiting task.
pub open spec fn fill_core(s: SimState, ranked: Seq<usize>, c: int, t: int, config: SimConfig) -> SimState {
    if s.overhead[c] > 0 || s.cores[c] is Some {
        s
    } else {
        match first_waiting_spec(ranked, s.cores) {
            None => s,
            Some(x) => dispatch_state(s, c, x, t, config.context_switch_cost, false),
        }
    }
}

/// An idle core that is not switching takes the best-ranked task that runs
/// on no core, and stays idle only when every ranked task is running.
pub proof fn lemma_fill_core_takes_best_waiting(s: SimState, ranked: Seq<usize>, c: int, t: int, config: SimConfig)
    requires
        0 <= c < s.cores.len(),
        c < s.overhead.len(),
        s.overhead[c] <= 0,
        s.cores[c] is None,
    ensures
        ranked.len() > 0 && !on_some_core(s.cores, ranked[0]) ==> fill_core(s, ranked, c, t, config).cores[c] == Some(ranked[0]),
        (forall|j: int| 0 <= j < ranked.len() ==> on_some_core(s.cores, #[trigger] ranked[j]))
            ==> fill_core(s, ranked, c, t, config).cores[c] is None,
{
    if forall|j: int| 0 <= j < ranked.len() ==> on_some_core(s.cores, #[trigger] ranked[j]) {
        lemma_first_waiting_none(ranked, s.cores, 0);
    }
}

proof fn lemma_first_waiting_none(ranked: Seq<usize>, cores: Seq<Option<usize>>, j: int)
    requires
        0 <= j,
        forall|k: int| 0 <= k < ranked.len() ==> on_some_core(cores, #[trigger] ranked[k]),
    ensures
        first_waiting_from(ranked, cores, j) is None,
    decreases ranked.len() - j,
{
    if j < ranked.len() {
        assert(on_some_core(cores, ranked[j]));
        lemma_first_waiting_none(ranked, cores, j + 1);
    }
}

/// The assignment pass over the first `c` cores.
pub open spec fn fill_upto(s: SimState, ranked: Seq<usize>, c: int, t: int, config: SimConfig) -> SimState
    decreases c,
{
    if c <= 0 {
        s
    } else {
        fill_core(fill_upto(s, ranked, c - 1, t, config), ranked, c - 1, t, config)
    }
}

/// One tick of core `c`: a switching core spends it on the switch; a busy
/// core runs its task, which completes at the end of the tick when no work
/// is left.
pub open spec fn execute_core(s: SimState, c: int, t: int) -> SimState {
    if s.overhead[c] > 0 {
        SimState { overhead: s.overhead.update(c, (s.overhead[c] - FIXED_ONE) as i64), ..s }
    } else {
        match s.cores[c] {
            None => s,
            Some(idx) => {
                let tk = s.tasks[idx as int];
                let rest = (tk.remaining_time - FIXED_ONE) as i64;
                if rest <= 0 {
                    let done = Task {
                        remaining_time: rest,
                        completed: true,
                        finish_time: Some((t + FIXED_ONE) as i64),
                        ..tk
                    };
                    SimState {
                        tasks: s.tasks.update(idx as int, done),
                        cores: s.cores.update(c, None),
                        events: s.events.push(SimEvent::Completed { time: (t + FIXED_ONE) as i64, task_id: tk.id }),
                        last_completion_time: if t + FIXED_ONE > s.last_completion_time {
                            t + FIXED_ONE
                        } else {
                            s.last_completion_time
                        },
                        ..s
                    }
                } else {
                    SimState { tasks: s.tasks.update(idx as int, Task { remaining_time: rest, ..tk }), ..s }
                }
            },
        }
    }
}

/// The execution pass over the first `c` cores.
pub open spec fn execute_upto(s: SimState, c: int, t: int) -> SimState
    decreases c,
{
    if c <= 0 {
        s
    } else {
        execute_core(execute_upto(s, c - 1, t), c - 1, t)
    }
}

/// The tick at `t` after admission, given the scheduler's ranking: drop,
/// preempt, fill idle cores, execute, and clear finished tasks from the
/// ready queue.
pub open spec fn tick(a: SimState, ranked: Seq<usize>, t: int, config: SimConfig) -> SimState {
    let b = drop_pass(a, t);
    let c = preempt_upto(b, ranked, b.cores.len() as int, t, config);
    let d = fill_upto(c, ranked, c.cores.len() as int, t, config);
    let e = execute_upto(d, d.cores.len() as int, t);
    SimState { ready: unfinished(e.ready, e.tasks), ..e }
}

/// The run from state `s` at time `t` until `stop`, the `k`-th tick using
/// `rankings[k]`.
pub open spec fn run_from(
    s: SimState,
    order: Seq<usize>,
    rankings: Seq<Seq<usize>>,
    t: int,
    stop: int,
    config: SimConfig,
) -> SimState
    decreases stop - t + FIXED_ONE,
{
    if t >= stop {
        s
    } else {
        let a = admit_due(s, order, t);
        if finished(a, order) {
            a
        } else {
            run_from(tick(a, rankings[0], t, config), order, rankings.drop_first(), t + FIXED_ONE, stop, config)
        }
    }
}

/// A ranking a scheduler may give for a ready queue: ready tasks, each once.
pub open spec fn ranking_of(ranked: Seq<usize>, ready: Seq<usize>) -> bool {
    ranked.no_duplicates() && forall|x: usize| ranked.contains(x) ==> ready.contains(x)
}

/// What a scheduler may rank a ready queue as: `rule(ready, tasks, t,
/// config, ranked)`.
pub type RankingRule = spec_fn(Seq<usize>, Seq<Task>, int, SimConfig, Seq<usize>) -> bool;

/// Every tick of the run from `s` gets a ranking of its ready queue, one
/// that `rule` allows.
pub open spec fn rankings_fit(
    s: SimState,
    order: Seq<usize>,
    rankings: Seq<Seq<usize>>,
    t: int,
    stop: int,
    config: SimConfig,
    rule: RankingRule,
) -> bool
    decreases stop - t + FIXED_ONE,
{
    if t >= stop {
        true
    } else {
        let a = admit_due(s, order, t);
        if finished(a, order) {
            true
        } else {
            &&& rankings.len() > 0
            &&& drop_pass(a, t).ready.no_duplicates()
            &&& ranking_of(rankings[0], drop_pass(a, t).ready)
            &&& rule(drop_pass(a, t).ready, drop_pass(a, t).tasks, t, config, rankings[0])
            &&& rankings_fit(tick(a, rankings[0], t, config), order, rankings.drop_first(), t + FIXED_ONE, stop, config, rule)
        }
    }
}

/// The state made of the values a run keeps in its variables.
pub open spec fn state_of(
    tasks: Seq<Task>,
    ready: Seq<usize>,
    cores: Seq<Option<usize>>,
    overhead: Seq<i64>,
    events: Seq<SimEvent>,
    total: int,
    last: int,
    ptr: int,
) -> SimState {
    SimState {
        tasks,
        ready,
        cores,
        overhead,
        events,
        total_context_switches: total,
        last_completion_time: last,
        ptr,
    }
}

/// Admission takes the tasks from `s.ptr` up to `p1` exactly when those
/// have arrived and the next one has not.
pub proof fn lemma_admit_due(s: SimState, order: Seq<usize>, t: int, p1: int)
    requires
        0 <= s.ptr <= p1 <= order.len(),
        forall|p: int| s.ptr <= p < p1 ==> s.tasks[#[trigger] order[p] as int].arrival_time <= t,
        p1 < order.len() ==> s.tasks[order[p1] as int].arrival_time > t,
    ensures
        admit_due(s, order, t) == (SimState { ready: s.ready + order.subrange(s.ptr, p1), ptr: p1, ..s }),
    decreases p1 - s.ptr,
{
    if s.ptr < p1 {
        let next = SimState { ready: s.ready.push(order[s.ptr]), ptr: s.ptr + 1, ..s };
        lemma_admit_due(next, order, t, p1);
        assert(next.ready + order.subrange(next.ptr, p1) =~= s.ready + order.subrange(s.ptr, p1));
    } else {
        assert(s.ready + order.subrange(s.ptr, p1) =~= s.ready);
    }
}

/// The drop pass keeps the counters, the admission position and the sizes.
pub proof fn lemma_drop_frame(s: SimState, pool: Seq<usize>, i: int, t: int)
    requires
        indices_below(pool, s.tasks.len() as int),
        i <= pool.len(),
    ensures
        drop_upto(s, pool, i, t).total_context_switches == s.total_context_switches,
        drop_upto(s, pool, i, t).last_completion_time == s.last_completion_time,
        drop_upto(s, pool, i, t).ptr == s.ptr,
        drop_upto(s, pool, i, t).tasks.len() == s.tasks.len(),
        drop_upto(s, pool, i, t).cores.len() == s.cores.len(),
        drop_upto(s, pool, i, t).overhead.len() == s.overhead.len(),
    decreases i,
{
    if i > 0 {
        lemma_drop_frame(s, pool, i - 1, t);
    }
}

/// A task found waiting is a ranked task on no core.
pub proof fn lemma_first_waiting_from(ranked: Seq<usize>, cores: Seq<Option<usize>>, j: int)
    ensures
        first_waiting_from(ranked, cores, j) matches Some(x) ==> ranked.contains(x) && !on_some_core(cores, x),
    decreases ranked.len() - j,
{
    if 0 <= j < ranked.len() {
        if on_some_core(cores, ranked[j]) {
            lemma_first_waiting_from(ranked, cores, j + 1);
        } else {
            assert(ranked.contains(ranked[j]));
        }
    }
}

/// What the dispatching passes need of a state to keep its sizes.
pub open spec fn dispatchable(s: SimState, ranked: Seq<usize>) -> bool {
    &&& s.overhead.len() == s.cores.len()
    &&& indices_below(ranked, s.tasks.len() as int)
    &&& cores_hold_below(s.cores, s.tasks.len() as int)
}

/// The preemption pass keeps the ready queue, the completion time, the
/// admission position and the sizes.
pub proof fn lemma_preempt_frame(s: SimState, ranked: Seq<usize>, c: int, t: int, config: SimConfig)
    requires
        dispatchable(s, ranked),
        c <= s.cores.len(),
    ensures
        preempt_upto(s, ranked, c, t, config).ready == s.ready,
        preempt_upto(s, ranked, c, t, config).last_completion_time == s.last_completion_time,
        preempt_upto(s, ranked, c, t, config).ptr == s.ptr,
        preempt_upto(s, ranked, c, t, config).tasks.len() == s.tasks.len(),
        preempt_upto(s, ranked, c, t, config).cores.len() == s.cores.len(),
        preempt_upto(s, ranked, c, t, config).overhead.len() == s.overhead.len(),
        dispatchable(preempt_upto(s, ranked, c, t, config), ranked),
    decreases c,
{
    if c > 0 {
        lemma_preempt_frame(s, ranked, c - 1, t, config);
        let p = preempt_upto(s, ranked, c - 1, t, config);
        lemma_first_waiting_from(ranked, p.cores, 0);
        if let Some(x) = first_waiting_spec(ranked, p.cores) {
            let k = choose|k: int| 0 <= k < ranked.len() && ranked[k] == x;
            assert(x < s.tasks.len());
        }
    }
}

/// The assignment pass keeps the ready queue, the completion time, the
/// admission position and the sizes.
pub proof fn lemma_fill_frame(s: SimState, ranked: Seq<usize>, c: int, t: int, config: SimConfig)
    requires
        dispatchable(s, ranked),
        c <= s.cores.len(),
    ensures
        fill_upto(s, ranked, c, t, config).ready == s.ready,
        fill_upto(s, ranked, c, t, config).last_completion_time == s.last_completion_time,
        fill_upto(s, ranked, c, t, config).ptr == s.ptr,
        fill_upto(s, ranked, c, t, config).tasks.len() == s.tasks.len(),
        fill_upto(s, ranked, c, t, config).cores.len() == s.cores.len(),
        fill_upto(s, ranked, c, t, config).overhead.len() == s.overhead.len(),
        dispatchable(fill_upto(s, ranked, c, t, config), ranked),
    decreases c,
{
    if c > 0 {
        lemma_fill_frame(s, ranked, c - 1, t, config);
        let p = fill_upto(s, ranked, c - 1, t, config);
        lemma_first_waiting_from(ranked, p.cores, 0);
        if let Some(x) = first_waiting_spec(ranked, p.cores) {
            let k = choose|k: int| 0 <= k < ranked.len() && ranked[k] == x;
            assert(x < s.tasks.len());
        }
    }
}

/// The execution pass keeps the ready queue, the switch count, the
/// admission position and the sizes.
pub proof fn lemma_execute_frame(s: SimState, c: int, t: int)
    requires
        s.overhead.len() == s.cores.len(),
        cores_hold_below(s.cores, s.tasks.len() as int),
        c <= s.cores.len(),
    ensures
        execute_upto(s, c, t).ready == s.ready,
        execute_upto(s, c, t).total_context_switches == s.total_context_switches,
        execute_upto(s, c, t).ptr == s.ptr,
        execute_upto(s, c, t).tasks.len() == s.tasks.len(),
        execute_upto(s, c, t).cores.len() == s.cores.len(),
        execute_upto(s, c, t).overhead.len() == s.overhead.len(),
        cores_hold_below(execute_upto(s, c, t).cores, s.tasks.len() as int),
    decreases c,
{
    if c > 0 {
        lemma_execute_frame(s, c - 1, t);
    }
}

/// `order` lists the task indices by arrival time, ties by index.
pub open spec fn admission_order(order: Seq<usize>, tasks: Seq<Task>) -> bool {
    &&& order.len() == tasks.len()
    &&& order.no_duplicates()
    &&& forall|p: int| 0 <= p < order.len() ==> #[trigger] order[p] < tasks.len()
    &&& forall|x: usize| x < tasks.len() ==> order.contains(x)
    &&& forall|p: int, q: int| #![trigger order[p], order[q]] 0 <= p < q < order.len() ==>
        tasks[order[p] as int].arrival_time < tasks[order[q] as int].arrival_time
        || (tasks[order[p] as int].arrival_time == tasks[order[q] as int].arrival_time && order[p] < order[q])
}


/// A rule that allows at most one ranking of a duplicate-free ready queue.
pub open spec fn rule_is_functional(rule: RankingRule) -> bool {
    forall|ready: Seq<usize>, tasks: Seq<Task>, t: int, config: SimConfig, r1: Seq<usize>, r2: Seq<usize>|
        #![trigger rule(ready, tasks, t, config, r1), rule(ready, tasks, t, config, r2)]
        ready.no_duplicates() && rule(ready, tasks, t, config, r1) && rule(ready, tasks, t, config, r2) ==> r1 == r2
}

/// Under a rule that ranks each ready queue in one way only, the rankings
/// of a run are determined, and so is where it ends.
pub proof fn lemma_run_from_deterministic(
    s: SimState,
    order: Seq<usize>,
    r1: Seq<Seq<usize>>,
    r2: Seq<Seq<usize>>,
    t: int,
    stop: int,
    config: SimConfig,
    rule: RankingRule,
)
    requires
        rule_is_functional(rule),
        rankings_fit(s, order, r1, t, stop, config, rule),
        rankings_fit(s, order, r2, t, stop, config, rule),
    ensures
        run_from(s, order, r1, t, stop, config) == run_from(s, order, r2, t, stop, config),
    decreases stop - t + FIXED_ONE,
{
    if t < stop {
        let a = admit_due(s, order, t);
        if !finished(a, order) {
            let b = drop_pass(a, t);
            assert(rule(b.ready, b.tasks, t, config, r1[0]));
            assert(rule(b.ready, b.tasks, t, config, r2[0]));
            assert(r1[0] == r2[0]);
            lemma_run_from_deterministic(tick(a, r1[0], t, config), order, r1.drop_first(), r2.drop_first(),
                t + FIXED_ONE, stop, config, rule);
        }
    }
}

} // verus!
