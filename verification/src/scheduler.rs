//! The schedulers: Global EDF, Partitioned EDF, MLLF and the two hybrid
//! relaxation-based algorithms, plus runtime selection among them.

use vstd::prelude::*;
use crate::task::{Task, Weather, spec_laxity, FIXED_ONE, theta, spec_theta, spec_lambda};
use crate::simulator::SimConfig;
use crate::machine::RankingRule;
use std::collections::HashMap;
use crate::text::{ascii_lower, lower_char, push_char};
use crate::ranking::{TTC_MARGIN, RankKey, RankRule, ranks_after, rule_valid, key_in_range, sort_keys, lemma_by_score_locally_sorted_is_sorted};

verus! {

/// A snapshot of a core's current state, provided to the scheduler.
#[derive(Debug, Clone, Copy, PartialEq, Eq, Structural)]
pub struct CoreView {
    pub running_task: Option<usize>,
    pub is_switching: bool,
}

// ---------------------------------------------------------------------
// Candidate pool
// ---------------------------------------------------------------------

/// Task `idx` is held by a core that is in the middle of a context switch.
pub open spec fn locked_on_switching_core(cores: Seq<CoreView>, idx: usize) -> bool {
    exists|i: int| 0 <= i < cores.len() && cores[i].is_switching && #[trigger] cores[i].running_task == Some(idx)
}

/// The ready tasks that are not locked on a switching core, in queue order;
/// a task listed more than once is taken at its first place.
pub open spec fn unlocked_ready(ready: Seq<usize>, cores: Seq<CoreView>) -> Seq<usize>
    decreases ready.len(),
{
    if ready.len() == 0 {
        ready
    } else {
        let rest = unlocked_ready(ready.drop_last(), cores);
        if locked_on_switching_core(cores, ready.last()) || rest.contains(ready.last()) {
            rest
        } else {
            rest.push(ready.last())
        }
    }
}

/// The tasks of `pool` whose laxity at `t` is not negative, in order.
pub open spec fn nonnegative_laxity(pool: Seq<usize>, tasks: Seq<Task>, t: int) -> Seq<usize>
    decreases pool.len(),
{
    if pool.len() == 0 {
        pool
    } else {
        let rest = nonnegative_laxity(pool.drop_last(), tasks, t);
        if spec_laxity(tasks[pool.last() as int], t) >= 0 { rest.push(pool.last()) } else { rest }
    }
}

/// `pool` extended, core by core, with the task each non-switching core is
/// running, unless that task is already there.
pub open spec fn with_running(pool: Seq<usize>, cores: Seq<CoreView>) -> Seq<usize>
    decreases cores.len(),
{
    if cores.len() == 0 {
        pool
    } else {
        let acc = with_running(pool, cores.drop_last());
        let c = cores.last();
        if !c.is_switching && c.running_task is Some && !acc.contains(c.running_task->0) {
            acc.push(c.running_task->0)
        } else {
            acc
        }
    }
}

/// `s` with every occurrence of `x` removed.
pub open spec fn without(s: Seq<usize>, x: usize) -> Seq<usize>
    decreases s.len(),
{
    if s.len() == 0 {
        s
    } else {
        let rest = without(s.drop_last(), x);
        if s.last() == x { rest } else { rest.push(s.last()) }
    }
}

/// All task indices of `s` are below `n`.
pub open spec fn indices_below(s: Seq<usize>, n: int) -> bool {
    forall|i: int| 0 <= i < s.len() ==> #[trigger] s[i] < n
}

/// Every task a core holds is below `n`.
pub open spec fn cores_below(cores: Seq<CoreView>, n: int) -> bool {
    forall|i: int| 0 <= i < cores.len() ==> (#[trigger] cores[i].running_task matches Some(x) ==> x < n)
}

/// Every chosen task is below `n`.
pub open spec fn choices_below(d: Seq<Option<usize>>, n: int) -> bool {
    forall|i: int| 0 <= i < d.len() ==> (#[trigger] d[i] matches Some(x) ==> x < n)
}

pub proof fn lemma_unlocked_ready_props(ready: Seq<usize>, cores: Seq<CoreView>)
    ensures
        forall|x: usize| unlocked_ready(ready, cores).contains(x)
            <==> ready.contains(x) && !locked_on_switching_core(cores, x),
        unlocked_ready(ready, cores).no_duplicates(),
        ready.no_duplicates() ==> unlocked_ready(ready, cores).no_duplicates(),
    decreases ready.len(),
{
    if ready.len() > 0 {
        let pre = ready.drop_last();
        lemma_unlocked_ready_props(pre, cores);
        assert forall|x: usize| ready.contains(x) <==> pre.contains(x) || x == ready.last() by {
            if ready.contains(x) {
                let k = choose|k: int| 0 <= k < ready.len() && ready[k] == x;
                if k < ready.len() - 1 {
                    assert(pre[k] == x);
                }
            }
            if pre.contains(x) {
                let k = choose|k: int| 0 <= k < pre.len() && pre[k] == x;
                assert(ready[k] == x);
            }
            if x == ready.last() {
                assert(ready[ready.len() - 1] == x);
            }
        }
        lemma_push_contains(unlocked_ready(pre, cores), ready.last());
        assert forall|x: usize| unlocked_ready(ready, cores).contains(x)
            <==> ready.contains(x) && !locked_on_switching_core(cores, x) by {
            if x == ready.last() {
            }
        }
        let rest = unlocked_ready(pre, cores);
        if !(locked_on_switching_core(cores, ready.last()) || rest.contains(ready.last())) {
            lemma_push_no_dups(rest, ready.last());
        }
    }
}

pub proof fn lemma_push_no_dups(s: Seq<usize>, x: usize)
    requires
        s.no_duplicates(),
        !s.contains(x),
    ensures
        s.push(x).no_duplicates(),
        forall|y: usize| s.push(x).contains(y) <==> s.contains(y) || y == x,
{
    let t = s.push(x);
    assert forall|i: int, j: int| 0 <= i < t.len() && 0 <= j < t.len() && i != j implies t[i] != t[j] by {
        if i == s.len() {
            assert(s[j] == t[j]);
        } else if j == s.len() {
            assert(s[i] == t[i]);
        } else {
            assert(s[i] == t[i] && s[j] == t[j]);
        }
    }
    assert forall|y: usize| t.contains(y) <==> s.contains(y) || y == x by {
        if t.contains(y) {
            let k = choose|k: int| 0 <= k < t.len() && t[k] == y;
            if k < s.len() {
                assert(s[k] == y);
            }
        }
        if s.contains(y) {
            let k = choose|k: int| 0 <= k < s.len() && s[k] == y;
            assert(t[k] == y);
        }
        if y == x {
            assert(t[s.len() as int] == y);
        }
    }
}

pub proof fn lemma_push_contains(s: Seq<usize>, x: usize)
    ensures
        forall|y: usize| s.push(x).contains(y) <==> s.contains(y) || y == x,
{
    let t = s.push(x);
    assert forall|y: usize| t.contains(y) <==> s.contains(y) || y == x by {
        if t.contains(y) {
            let k = choose|k: int| 0 <= k < t.len() && t[k] == y;
            if k < s.len() {
                assert(s[k] == y);
            }
        }
        if s.contains(y) {
            let k = choose|k: int| 0 <= k < s.len() && s[k] == y;
            assert(t[k] == y);
        }
        if y == x {
            assert(t[s.len() as int] == y);
        }
    }
}

pub proof fn lemma_drop_last_contains(s: Seq<usize>)
    requires
        s.len() > 0,
    ensures
        forall|y: usize| s.contains(y) <==> s.drop_last().contains(y) || y == s.last(),
{
    lemma_push_contains(s.drop_last(), s.last());
    assert(s.drop_last().push(s.last()) =~= s);
}

pub proof fn lemma_without_props(s: Seq<usize>, x: usize)
    ensures
        forall|y: usize| without(s, x).contains(y) <==> s.contains(y) && y != x,
        s.no_duplicates() ==> without(s, x).no_duplicates(),
        without(s, x).len() <= s.len(),
    decreases s.len(),
{
    if s.len() > 0 {
        let pre = s.drop_last();
        lemma_without_props(pre, x);
        lemma_drop_last_contains(s);
        lemma_push_contains(without(pre, x), s.last());
        assert forall|y: usize| without(s, x).contains(y) <==> s.contains(y) && y != x by {
            if s.last() == x {
                assert(without(s, x) == without(pre, x));
            } else {
                assert(without(s, x) == without(pre, x).push(s.last()));
            }
        }
        if s.no_duplicates() {
            assert(pre.no_duplicates()) by {
                assert forall|i: int, j: int| 0 <= i < pre.len() && 0 <= j < pre.len() && i != j
                    implies pre[i] != pre[j] by {
                    assert(pre[i] == s[i] && pre[j] == s[j]);
                }
            }
            assert(!pre.contains(s.last())) by {
                if pre.contains(s.last()) {
                    let k = choose|k: int| 0 <= k < pre.len() && pre[k] == s.last();
                    assert(s[k] == s[s.len() - 1]);
                }
            }
            if s.last() != x {
                lemma_push_no_dups(without(pre, x), s.last());
            }
        }
    }
}

pub proof fn lemma_with_running_props(pool: Seq<usize>, cores: Seq<CoreView>)
    ensures
        forall|y: usize| with_running(pool, cores).contains(y) ==> pool.contains(y)
            || exists|i: int| 0 <= i < cores.len() && #[trigger] cores[i].running_task == Some(y),
        forall|y: usize| pool.contains(y) ==> with_running(pool, cores).contains(y),
        pool.no_duplicates() ==> with_running(pool, cores).no_duplicates(),
    decreases cores.len(),
{
    if cores.len() > 0 {
        let pre = cores.drop_last();
        lemma_with_running_props(pool, pre);
        let acc = with_running(pool, pre);
        let c = cores.last();
        if !c.is_switching && c.running_task is Some && !acc.contains(c.running_task->0) {
            lemma_push_contains(acc, c.running_task->0);
            if pool.no_duplicates() {
                lemma_push_no_dups(acc, c.running_task->0);
            }
            assert(cores[cores.len() - 1].running_task == Some(c.running_task->0));
        }
        assert forall|y: usize| with_running(pool, cores).contains(y) implies pool.contains(y)
            || exists|i: int| 0 <= i < cores.len() && #[trigger] cores[i].running_task == Some(y) by {
            if acc.contains(y) && !pool.contains(y) {
                let i = choose|i: int| 0 <= i < pre.len() && #[trigger] pre[i].running_task == Some(y);
                assert(cores[i] == pre[i]);
            }
        }
    }
}

/// Whether task `idx` is held by a switching core.
fn is_locked(cores: &[CoreView], idx: usize) -> (r: bool)
    ensures
        r == locked_on_switching_core(cores@, idx),
{
    let mut k: usize = 0;
    while k < cores.len()
        invariant
            k <= cores@.len(),
            forall|i: int| 0 <= i < k ==> !(cores@[i].is_switching && #[trigger] cores@[i].running_task == Some(idx)),
        decreases cores@.len() - k,
    {
        if cores[k].is_switching && cores[k].running_task == Some(idx) {
            return true;
        }
        k = k + 1;
    }
    false
}

/// The ready tasks not locked on a switching core.
fn collect_unlocked(ready_queue: &[usize], cores: &[CoreView]) -> (r: Vec<usize>)
    ensures
        r@ == unlocked_ready(ready_queue@, cores@),
{
    let mut out: Vec<usize> = Vec::new();
    let mut i: usize = 0;
    while i < ready_queue.len()
        invariant
            i <= ready_queue@.len(),
            out@ == unlocked_ready(ready_queue@.take(i as int), cores@),
        decreases ready_queue@.len() - i,
    {
        let idx = ready_queue[i];
        assert(ready_queue@.take(i as int + 1).drop_last() =~= ready_queue@.take(i as int));
        if !is_locked(cores, idx) && !vec_contains(&out, idx) {
            out.push(idx);
        }
        i = i + 1;
    }
    assert(ready_queue@.take(ready_queue@.len() as int) =~= ready_queue@);
    out
}

/// The tasks of `pool` whose laxity is not negative.
fn keep_nonnegative_laxity(pool: &Vec<usize>, tasks: &[Task], t: i64) -> (r: Vec<usize>)
    requires
        indices_below(pool@, tasks@.len() as int),
    ensures
        r@ == nonnegative_laxity(pool@, tasks@, t as int),
{
    let mut out: Vec<usize> = Vec::new();
    let mut i: usize = 0;
    while i < pool.len()
        invariant
            i <= pool@.len(),
            indices_below(pool@, tasks@.len() as int),
            out@ == nonnegative_laxity(pool@.take(i as int), tasks@, t as int),
        decreases pool@.len() - i,
    {
        let idx = pool[i];
        assert(pool@.take(i as int + 1).drop_last() =~= pool@.take(i as int));
        if tasks[idx].laxity(t) >= 0 {
            out.push(idx);
        }
        i = i + 1;
    }
    assert(pool@.take(pool@.len() as int) =~= pool@);
    out
}

/// Whether `x` occurs in `s`.
fn vec_contains(s: &Vec<usize>, x: usize) -> (r: bool)
    ensures
        r == s@.contains(x),
{
    let mut k: usize = 0;
    while k < s.len()
        invariant
            k <= s@.len(),
            forall|i: int| 0 <= i < k ==> s@[i] != x,
        decreases s@.len() - k,
    {
        if s[k] == x {
            return true;
        }
        k = k + 1;
    }
    false
}

/// Adds the task of every non-switching core to the pool, unless present.
fn add_running_tasks(pool: Vec<usize>, cores: &[CoreView]) -> (r: Vec<usize>)
    ensures
        r@ == with_running(pool@, cores@),
{
    let mut out = pool;
    let ghost start = out@;
    let mut k: usize = 0;
    while k < cores.len()
        invariant
            k <= cores@.len(),
            out@ == with_running(start, cores@.take(k as int)),
        decreases cores@.len() - k,
    {
        assert(cores@.take(k as int + 1).drop_last() =~= cores@.take(k as int));
        if !cores[k].is_switching {
            if let Some(idx) = cores[k].running_task {
                if !vec_contains(&out, idx) {
                    out.push(idx);
                }
            }
        }
        k = k + 1;
    }
    assert(cores@.take(cores@.len() as int) =~= cores@);
    out
}

/// Removes every occurrence of `x`.
fn remove_task(s: &Vec<usize>, x: usize) -> (r: Vec<usize>)
    ensures
        r@ == without(s@, x),
{
    let mut out: Vec<usize> = Vec::new();
    let mut i: usize = 0;
    while i < s.len()
        invariant
            i <= s@.len(),
            out@ == without(s@.take(i as int), x),
        decreases s@.len() - i,
    {
        assert(s@.take(i as int + 1).drop_last() =~= s@.take(i as int));
        if s[i] != x {
            out.push(s[i]);
        }
        i = i + 1;
    }
    assert(s@.take(s@.len() as int) =~= s@);
    out
}

pub proof fn lemma_without_below(s: Seq<usize>, x: usize, n: int)
    requires
        indices_below(s, n),
    ensures
        indices_below(without(s, x), n),
{
    lemma_without_props(s, x);
    let w = without(s, x);
    assert forall|i: int| 0 <= i < w.len() implies #[trigger] w[i] < n by {
        assert(w.contains(w[i]));
        assert(s.contains(w[i]));
    }
}

// ---------------------------------------------------------------------
// Core assignment: the three passes shared by the global schedulers
// ---------------------------------------------------------------------

/// When a better-ranked waiting task displaces the task a core is running.
#[derive(Debug, Clone, Copy, PartialEq, Eq, Structural)]
pub enum PreemptTest {
    /// The candidate's deadline is strictly earlier (EDF).
    EarlierDeadline,
    /// The candidate's laxity is strictly lower (MLLF).
    LowerLaxity,
    /// The candidate's laxity is below the running task's remaining time
    /// plus twice the context-switch cost (the hybrid algorithms).
    LaxityBelowRemaining { switch_cost: i64 },
}

pub open spec fn preempts(test: PreemptTest, tasks: Seq<Task>, t: int, best: usize, running: usize) -> bool {
    match test {
        PreemptTest::EarlierDeadline => tasks[best as int].deadline < tasks[running as int].deadline,
        PreemptTest::LowerLaxity => spec_laxity(tasks[best as int], t) < spec_laxity(tasks[running as int], t),
        PreemptTest::LaxityBelowRemaining { switch_cost } =>
            spec_laxity(tasks[best as int], t) < tasks[running as int].remaining_time + 2 * switch_cost,
    }
}

/// Pass 1: a core in the middle of a context switch keeps its task, which
/// leaves the candidate list.
pub open spec fn lock_pass(cores: Seq<CoreView>, st: (Seq<Option<usize>>, Seq<usize>), k: int)
    -> (Seq<Option<usize>>, Seq<usize>)
    decreases k,
{
    if k <= 0 {
        st
    } else {
        let s = lock_pass(cores, st, k - 1);
        let c = cores[k - 1];
        if c.is_switching {
            (s.0.update(k - 1, c.running_task), match c.running_task {
                Some(x) => without(s.1, x),
                None => s.1,
            })
        } else {
            s
        }
    }
}

/// Task `x` runs on some core other than `k`.
pub open spec fn runs_elsewhere(cores: Seq<CoreView>, x: usize, k: int) -> bool {
    exists|j: int| 0 <= j < cores.len() && j != k && #[trigger] cores[j].running_task == Some(x)
}

/// The best candidate that no core other than `k` is running.
pub open spec fn first_free(cand: Seq<usize>, cores: Seq<CoreView>, k: int) -> Option<usize>
    decreases cand.len(),
{
    if cand.len() == 0 {
        None
    } else if !runs_elsewhere(cores, cand[0], k) {
        Some(cand[0])
    } else {
        first_free(cand.drop_first(), cores, k)
    }
}

/// Pass 2: every idle core takes the best remaining candidate that runs on
/// no core, so no running task is handed to a second core.
pub open spec fn fill_pass(cores: Seq<CoreView>, st: (Seq<Option<usize>>, Seq<usize>), k: int)
    -> (Seq<Option<usize>>, Seq<usize>)
    decreases k,
{
    if k <= 0 {
        st
    } else {
        let s = fill_pass(cores, st, k - 1);
        let c = cores[k - 1];
        if !c.is_switching && c.running_task is None {
            match first_free(s.1, cores, k - 1) {
                Some(x) => (s.0.update(k - 1, Some(x)), without(s.1, x)),
                None => s,
            }
        } else {
            s
        }
    }
}

/// Pass 3: every busy core still undecided keeps its task, unless the best
/// remaining candidate that runs on no other core passes the preemption
/// test.
pub open spec fn preempt_pass(
    cores: Seq<CoreView>,
    st: (Seq<Option<usize>>, Seq<usize>),
    k: int,
    test: PreemptTest,
    tasks: Seq<Task>,
    t: int,
) -> (Seq<Option<usize>>, Seq<usize>)
    decreases k,
{
    if k <= 0 {
        st
    } else {
        let s = preempt_pass(cores, st, k - 1, test, tasks, t);
        let c = cores[k - 1];
        if s.0[k - 1] is Some {
            s
        } else {
            match c.running_task {
                None => s,
                Some(r) => match first_free(s.1, cores, k - 1) {
                    None => (s.0.update(k - 1, Some(r)), s.1),
                    Some(best) => if best == r {
                        (s.0.update(k - 1, Some(r)), without(s.1, r))
                    } else if preempts(test, tasks, t, best, r) {
                        (s.0.update(k - 1, Some(best)), without(s.1, best))
                    } else {
                        (s.0.update(k - 1, Some(r)), without(s.1, r))
                    },
                },
            }
        }
    }
}

/// What each core should run, given the ranked candidates.
pub open spec fn assignment(cores: Seq<CoreView>, ranked: Seq<usize>, test: PreemptTest, tasks: Seq<Task>, t: int)
    -> Seq<Option<usize>>
{
    let n = cores.len() as int;
    let init = (Seq::new(cores.len(), |i: int| None::<usize>), ranked);
    let s1 = lock_pass(cores, init, n);
    let s2 = fill_pass(cores, s1, n);
    preempt_pass(cores, s2, n, test, tasks, t).0
}

proof fn lemma_lock_pass_keeps(cores: Seq<CoreView>, st: (Seq<Option<usize>>, Seq<usize>), m: int, k: int)
    requires
        st.0.len() == cores.len(),
        0 <= k < cores.len(),
        m <= cores.len(),
    ensures
        lock_pass(cores, st, m).0.len() == cores.len(),
        !cores[k].is_switching ==> lock_pass(cores, st, m).0[k] == st.0[k],
        cores[k].is_switching && k < m ==> lock_pass(cores, st, m).0[k] == cores[k].running_task,
    decreases m,
{
    if m > 0 {
        lemma_lock_pass_keeps(cores, st, m - 1, k);
    }
}

proof fn lemma_fill_pass_keeps(cores: Seq<CoreView>, st: (Seq<Option<usize>>, Seq<usize>), m: int, k: int)
    requires
        st.0.len() == cores.len(),
        0 <= k < cores.len(),
        m <= cores.len(),
    ensures
        fill_pass(cores, st, m).0.len() == cores.len(),
        cores[k].is_switching || cores[k].running_task is Some ==> fill_pass(cores, st, m).0[k] == st.0[k],
        k >= m ==> fill_pass(cores, st, m).0[k] == st.0[k],
        k < m && st.0[k] is None ==> (fill_pass(cores, st, m).0[k] matches Some(x) ==> !runs_elsewhere(cores, x, k)),
    decreases m,
{
    if m > 0 {
        lemma_fill_pass_keeps(cores, st, m - 1, k);
        let s = fill_pass(cores, st, m - 1);
        lemma_first_free(s.1, cores, m - 1);
    }
}

/// The candidate found is one of them and runs on no other core.
proof fn lemma_first_free(cand: Seq<usize>, cores: Seq<CoreView>, k: int)
    ensures
        first_free(cand, cores, k) matches Some(x) ==> cand.contains(x) && !runs_elsewhere(cores, x, k),
    decreases cand.len(),
{
    if cand.len() > 0 {
        if runs_elsewhere(cores, cand[0], k) {
            lemma_first_free(cand.drop_first(), cores, k);
            if let Some(x) = first_free(cand.drop_first(), cores, k) {
                let j = choose|j: int| 0 <= j < cand.drop_first().len() && cand.drop_first()[j] == x;
                assert(cand[j + 1] == x);
            }
        } else {
            assert(cand[0] == cand[0]);
        }
    }
}

proof fn lemma_preempt_pass_decides(
    cores: Seq<CoreView>,
    st: (Seq<Option<usize>>, Seq<usize>),
    m: int,
    test: PreemptTest,
    tasks: Seq<Task>,
    t: int,
    k: int,
)
    requires
        st.0.len() == cores.len(),
        0 <= k < cores.len(),
        m <= cores.len(),
    ensures
        preempt_pass(cores, st, m, test, tasks, t).0.len() == cores.len(),
        k >= m ==> preempt_pass(cores, st, m, test, tasks, t).0[k] == st.0[k],
        k < m && st.0[k] is Some ==> preempt_pass(cores, st, m, test, tasks, t).0[k] == st.0[k],
        k < m && st.0[k] is None && cores[k].running_task is None ==> preempt_pass(cores, st, m, test, tasks, t).0[k] is None,
        cores[k].running_task matches Some(r) ==> (k < m && st.0[k] is None ==> ({
            let d = preempt_pass(cores, st, m, test, tasks, t).0[k];
            d == Some(r) || (d matches Some(b) && preempts(test, tasks, t, b, r) && !runs_elsewhere(cores, b, k))
        })),
    decreases m,
{
    if m > 0 {
        lemma_preempt_pass_decides(cores, st, m - 1, test, tasks, t, k);
        let s = preempt_pass(cores, st, m - 1, test, tasks, t);
        lemma_first_free(s.1, cores, m - 1);
    }
}

/// The cores run pairwise different tasks.
pub open spec fn running_distinct(cores: Seq<CoreView>) -> bool {
    forall|i: int, j: int| 0 <= i < cores.len() && 0 <= j < cores.len() && i != j && cores[i].running_task is Some
        ==> cores[i].running_task != cores[j].running_task
}

/// No core is handed a task that another core is running: a running task
/// never migrates to a second core.
pub proof fn lemma_no_task_taken_from_another_core(
    cores: Seq<CoreView>,
    ranked: Seq<usize>,
    test: PreemptTest,
    tasks: Seq<Task>,
    t: int,
    i: int,
    j: int,
)
    requires
        0 <= i < cores.len(),
        0 <= j < cores.len(),
        i != j,
        cores[j].running_task is Some,
        running_distinct(cores),
    ensures
        assignment(cores, ranked, test, tasks, t)[i] != cores[j].running_task,
{
    let n = cores.len() as int;
    let init = (Seq::new(cores.len(), |q: int| None::<usize>), ranked);
    lemma_lock_pass_keeps(cores, init, n, i);
    let s1 = lock_pass(cores, init, n);
    lemma_fill_pass_keeps(cores, s1, n, i);
    let s2 = fill_pass(cores, s1, n);
    lemma_preempt_pass_decides(cores, s2, n, test, tasks, t, i);
    let x = cores[j].running_task->0;
    assert(runs_elsewhere(cores, x, i));
    if cores[i].running_task is Some {
        assert(cores[i].running_task != cores[j].running_task);
    }
}

/// What the passes have decided so far comes from the ranked candidates or
/// is the task the core already runs, and the candidates left are ranked ones.
pub open spec fn drawn_from_ranked(cores: Seq<CoreView>, ranked: Seq<usize>, st: (Seq<Option<usize>>, Seq<usize>)) -> bool {
    &&& st.0.len() == cores.len()
    &&& forall|x: usize| #[trigger] st.1.contains(x) ==> ranked.contains(x)
    &&& forall|k: int| 0 <= k < cores.len() ==> (#[trigger] st.0[k] matches Some(x)
            ==> cores[k].running_task == Some(x) || ranked.contains(x))
}

proof fn lemma_passes_draw_from_ranked(
    cores: Seq<CoreView>,
    ranked: Seq<usize>,
    st: (Seq<Option<usize>>, Seq<usize>),
    m: int,
    test: PreemptTest,
    tasks: Seq<Task>,
    t: int,
)
    requires
        drawn_from_ranked(cores, ranked, st),
        m <= cores.len(),
    ensures
        drawn_from_ranked(cores, ranked, lock_pass(cores, st, m)),
        drawn_from_ranked(cores, ranked, fill_pass(cores, st, m)),
        drawn_from_ranked(cores, ranked, preempt_pass(cores, st, m, test, tasks, t)),
    decreases m,
{
    if m > 0 {
        lemma_passes_draw_from_ranked(cores, ranked, st, m - 1, test, tasks, t);
        let k = m - 1;
        let c = cores[k];
        let sl = lock_pass(cores, st, m - 1);
        if c.is_switching {
            let nl = lock_pass(cores, st, m);
            if let Some(x) = c.running_task {
                lemma_without_props(sl.1, x);
                assert(nl.1 == without(sl.1, x));
            } else {
                assert(nl.1 == sl.1);
            }
            assert forall|y: usize| #[trigger] nl.1.contains(y) implies ranked.contains(y) by {
                assert(sl.1.contains(y));
            }
            assert forall|j: int| 0 <= j < cores.len() implies (#[trigger] nl.0[j] matches Some(x)
                ==> cores[j].running_task == Some(x) || ranked.contains(x)) by {
                if j != k {
                    assert(nl.0[j] == sl.0[j]);
                }
            }
        }
        let sf = fill_pass(cores, st, m - 1);
        lemma_first_free(sf.1, cores, k);
        if !c.is_switching && c.running_task is None {
            if let Some(x) = first_free(sf.1, cores, k) {
                let nf = fill_pass(cores, st, m);
                lemma_without_props(sf.1, x);
                assert(sf.1.contains(x));
                assert(nf.1 == without(sf.1, x));
                assert forall|y: usize| #[trigger] nf.1.contains(y) implies ranked.contains(y) by {
                    assert(sf.1.contains(y));
                }
                assert forall|j: int| 0 <= j < cores.len() implies (#[trigger] nf.0[j] matches Some(y)
                    ==> cores[j].running_task == Some(y) || ranked.contains(y)) by {
                    if j != k {
                        assert(nf.0[j] == sf.0[j]);
                    }
                }
            }
        }
        let sp = preempt_pass(cores, st, m - 1, test, tasks, t);
        let np = preempt_pass(cores, st, m, test, tasks, t);
        lemma_first_free(sp.1, cores, k);
        if sp.0[k] is None {
            if let Some(r) = c.running_task {
                lemma_without_props(sp.1, r);
                if let Some(x) = first_free(sp.1, cores, k) {
                    lemma_without_props(sp.1, x);
                    assert(sp.1.contains(x));
                }
                assert forall|y: usize| #[trigger] np.1.contains(y) implies ranked.contains(y) by {
                    assert(sp.1.contains(y));
                }
                assert forall|j: int| 0 <= j < cores.len() implies (#[trigger] np.0[j] matches Some(y)
                    ==> cores[j].running_task == Some(y) || ranked.contains(y)) by {
                    if j != k {
                        assert(np.0[j] == sp.0[j]);
                    }
                }
            }
        }
    }
}

/// Every core is assigned the task it already runs or one of the ranked
/// candidates.
pub proof fn lemma_assignment_draws_from_ranked(
    cores: Seq<CoreView>,
    ranked: Seq<usize>,
    test: PreemptTest,
    tasks: Seq<Task>,
    t: int,
)
    ensures
        assignment(cores, ranked, test, tasks, t).len() == cores.len(),
        forall|k: int| 0 <= k < cores.len() ==> (#[trigger] assignment(cores, ranked, test, tasks, t)[k] matches Some(x)
            ==> cores[k].running_task == Some(x) || ranked.contains(x)),
{
    let n = cores.len() as int;
    let init = (Seq::new(cores.len(), |i: int| None::<usize>), ranked);
    lemma_passes_draw_from_ranked(cores, ranked, init, n, test, tasks, t);
    let s1 = lock_pass(cores, init, n);
    lemma_passes_draw_from_ranked(cores, ranked, s1, n, test, tasks, t);
    let s2 = fill_pass(cores, s1, n);
    lemma_passes_draw_from_ranked(cores, ranked, s2, n, test, tasks, t);
}

/// What the hybrid schedulers decide: a core in the middle of a context
/// switch keeps its task; every task handed to a core is waiting in the
/// ready queue or already running on some core; and a task newly placed on
/// a core (running on none) can still meet its deadline, its laxity is not
/// negative (proactive drop).
pub proof fn lemma_relaxation_schedule_invariants(
    ready: Seq<usize>,
    cores: Seq<CoreView>,
    tasks: Seq<Task>,
    t: int,
    theta: int,
    lambda: Option<i64>,
    switch_cost: i64,
    desired: Seq<Option<usize>>,
)
    requires
        relaxation_schedule(ready, cores, tasks, t, theta, lambda, switch_cost, desired),
    ensures
        desired.len() == cores.len(),
        forall|i: int| 0 <= i < cores.len() && (#[trigger] cores[i]).is_switching ==> desired[i] == cores[i].running_task,
        forall|i: int| 0 <= i < cores.len() ==> (#[trigger] desired[i] matches Some(x) ==> ready.contains(x)
            || exists|j: int| 0 <= j < cores.len() && #[trigger] cores[j].running_task == Some(x)),
        forall|i: int| 0 <= i < cores.len() ==> (#[trigger] desired[i] matches Some(x)
            ==> (exists|j: int| 0 <= j < cores.len() && #[trigger] cores[j].running_task == Some(x))
                || spec_laxity(tasks[x as int], t) >= 0),
{
    let pool = hybrid_pool(ready, cores, tasks, t);
    let u = unlocked_ready(ready, cores);
    lemma_unlocked_ready_props(ready, cores);
    lemma_nonnegative_laxity_props(u, tasks, t);
    lemma_with_running_props(nonnegative_laxity(u, tasks, t), cores);
    if pool.len() == 0 {
        assert forall|i: int| 0 <= i < cores.len() implies (#[trigger] desired[i] matches Some(x) ==> ready.contains(x)
            || exists|j: int| 0 <= j < cores.len() && #[trigger] cores[j].running_task == Some(x)) by {
            assert(desired[i] == cores[i].running_task);
        }
        assert forall|i: int| 0 <= i < cores.len() implies (#[trigger] desired[i] matches Some(x)
            ==> (exists|j: int| 0 <= j < cores.len() && #[trigger] cores[j].running_task == Some(x))
                || spec_laxity(tasks[x as int], t) >= 0) by {
            assert(desired[i] == cores[i].running_task);
        }
    } else {
        let ranked = choose|ranked: Seq<usize>|
            is_ranking(ranked, pool,
                |x: usize| relaxation_key(tasks, t, pool, theta, lambda, x),
                relaxation_rule(pool, tasks, t))
            && desired == assignment(cores, ranked, PreemptTest::LaxityBelowRemaining { switch_cost }, tasks, t);
        let test = PreemptTest::LaxityBelowRemaining { switch_cost };
        lemma_assignment_draws_from_ranked(cores, ranked, test, tasks, t);
        assert forall|i: int| 0 <= i < cores.len() && (#[trigger] cores[i]).is_switching
            implies desired[i] == cores[i].running_task by {
            lemma_preemption_needs_test(cores, ranked, test, tasks, t, i);
        }
        assert forall|x: usize| ranked.contains(x) implies pool.contains(x) by {
            let q = choose|q: int| 0 <= q < ranked.len() && ranked[q] == x;
            assert(is_ranking(ranked, pool,
                |x: usize| relaxation_key(tasks, t, pool, theta, lambda, x),
                relaxation_rule(pool, tasks, t)));
        }
        assert forall|i: int| 0 <= i < cores.len() implies (#[trigger] desired[i] matches Some(x) ==> ready.contains(x)
            || exists|j: int| 0 <= j < cores.len() && #[trigger] cores[j].running_task == Some(x)) by {
            if let Some(x) = desired[i] {
                if cores[i].running_task != Some(x) {
                    assert(ranked.contains(x));
                    assert(pool.contains(x));
                }
            }
        }
        assert forall|i: int| 0 <= i < cores.len() implies (#[trigger] desired[i] matches Some(x)
            ==> (exists|j: int| 0 <= j < cores.len() && #[trigger] cores[j].running_task == Some(x))
                || spec_laxity(tasks[x as int], t) >= 0) by {
            if let Some(x) = desired[i] {
                if cores[i].running_task != Some(x) {
                    assert(ranked.contains(x));
                    assert(pool.contains(x));
                }
            }
        }
    }
}

/// A core in the middle of a context switch keeps its task; a busy core
/// is only handed another task when that task passes the preemption test
/// against the one it runs.
pub proof fn lemma_preemption_needs_test(
    cores: Seq<CoreView>,
    ranked: Seq<usize>,
    test: PreemptTest,
    tasks: Seq<Task>,
    t: int,
    k: int,
)
    requires
        0 <= k < cores.len(),
    ensures
        cores[k].is_switching ==> assignment(cores, ranked, test, tasks, t)[k] == cores[k].running_task,
        cores[k].running_task matches Some(r) ==> (!cores[k].is_switching ==> ({
            let d = assignment(cores, ranked, test, tasks, t)[k];
            d == Some(r) || (d matches Some(b) && preempts(test, tasks, t, b, r))
        })),
{
    let n = cores.len() as int;
    let init = (Seq::new(cores.len(), |i: int| None::<usize>), ranked);
    lemma_lock_pass_keeps(cores, init, n, k);
    let s1 = lock_pass(cores, init, n);
    lemma_fill_pass_keeps(cores, s1, n, k);
    let s2 = fill_pass(cores, s1, n);
    lemma_preempt_pass_decides(cores, s2, n, test, tasks, t, k);
}

fn preempts_exec(test: PreemptTest, tasks: &[Task], t: i64, best: usize, running: usize) -> (r: bool)
    requires
        best < tasks@.len(),
        running < tasks@.len(),
    ensures
        r == preempts(test, tasks@, t as int, best, running),
{
    match test {
        PreemptTest::EarlierDeadline => tasks[best].deadline < tasks[running].deadline,
        PreemptTest::LowerLaxity => tasks[best].laxity(t) < tasks[running].laxity(t),
        PreemptTest::LaxityBelowRemaining { switch_cost } =>
            tasks[best].laxity(t) < tasks[running].remaining_time as i128 + 2 * switch_cost as i128,
    }
}

proof fn lemma_index_of_contained(s: Seq<usize>, x: usize, n: int)
    requires
        indices_below(s, n),
        s.contains(x),
    ensures
        x < n,
{
    let j = choose|j: int| 0 <= j < s.len() && s[j] == x;
    assert(s[j] < n);
}

/// Whether task `x` runs on some core other than `k`.
fn runs_elsewhere_exec(cores: &[CoreView], x: usize, k: usize) -> (r: bool)
    ensures
        r == runs_elsewhere(cores@, x, k as int),
{
    let mut j: usize = 0;
    while j < cores.len()
        invariant
            j <= cores@.len(),
            forall|d: int| 0 <= d < j && d != k ==> cores@[d].running_task != Some(x),
        decreases cores@.len() - j,
    {
        if j != k && cores[j].running_task == Some(x) {
            assert(cores@[j as int].running_task == Some(x));
            return true;
        }
        j = j + 1;
    }
    false
}

/// The best candidate that no core other than `k` is running.
fn first_free_exec(cand: &Vec<usize>, cores: &[CoreView], k: usize) -> (r: Option<usize>)
    ensures
        r == first_free(cand@, cores@, k as int),
        r matches Some(x) ==> cand@.contains(x),
{
    let mut i: usize = 0;
    assert(cand@.skip(0) =~= cand@);
    while i < cand.len()
        invariant
            i <= cand@.len(),
            first_free(cand@, cores@, k as int) == first_free(cand@.skip(i as int), cores@, k as int),
        decreases cand@.len() - i,
    {
        let x = cand[i];
        assert(cand@.skip(i as int)[0] == x);
        assert(cand@.skip(i as int).drop_first() =~= cand@.skip(i as int + 1));
        if !runs_elsewhere_exec(cores, x, k) {
            return Some(x);
        }
        i = i + 1;
    }
    assert(cand@.skip(i as int).len() == 0);
    None
}

/// Runs the three assignment passes over the ranked candidates.
pub fn assign_cores(ranked: Vec<usize>, cores: &[CoreView], tasks: &[Task], t: i64, test: PreemptTest)
    -> (desired: Vec<Option<usize>>)
    requires
        indices_below(ranked@, tasks@.len() as int),
        cores_below(cores@, tasks@.len() as int),
    ensures
        desired@ == assignment(cores@, ranked@, test, tasks@, t as int),
        desired@.len() == cores@.len(),
        choices_below(desired@, tasks@.len() as int),
{
    let n = cores.len();
    let ntasks = tasks.len();
    let mut desired: Vec<Option<usize>> = vec![None; n];
    let mut candidates = ranked;
    let ghost init = (desired@, candidates@);
    assert(init.0 =~= Seq::new(cores@.len(), |i: int| None::<usize>));

    // Pass 1: handle context switching (locked)
    let mut i: usize = 0;
    while i < n
        invariant
            i <= n == cores@.len(),
            ntasks == tasks@.len(),
            cores_below(cores@, ntasks as int),
            (desired@, candidates@) == lock_pass(cores@, init, i as int),
            desired@.len() == n,
            choices_below(desired@, ntasks as int),
            indices_below(candidates@, ntasks as int),
        decreases n - i,
    {
        if cores[i].is_switching {
            desired.set(i, cores[i].running_task);
            if let Some(x) = cores[i].running_task {
                proof { lemma_without_below(candidates@, x, ntasks as int); }
                candidates = remove_task(&candidates, x);
            }
        }
        i = i + 1;
    }
    let ghost s1 = (desired@, candidates@);

    // Pass 2: fill currently idle cores
    let mut i: usize = 0;
    while i < n
        invariant
            i <= n == cores@.len(),
            ntasks == tasks@.len(),
            cores_below(cores@, ntasks as int),
            (desired@, candidates@) == fill_pass(cores@, s1, i as int),
            desired@.len() == n,
            choices_below(desired@, ntasks as int),
            indices_below(candidates@, ntasks as int),
        decreases n - i,
    {
        if !cores[i].is_switching && cores[i].running_task.is_none() {
            if let Some(next) = first_free_exec(&candidates, cores, i) {
                proof { lemma_index_of_contained(candidates@, next, ntasks as int); }
                desired.set(i, Some(next));
                proof { lemma_without_below(candidates@, next, ntasks as int); }
                candidates = remove_task(&candidates, next);
            }
        }
        i = i + 1;
    }
    let ghost s2 = (desired@, candidates@);

    // Pass 3: preemption check for busy cores
    let mut i: usize = 0;
    while i < n
        invariant
            i <= n == cores@.len(),
            ntasks == tasks@.len(),
            cores_below(cores@, ntasks as int),
            (desired@, candidates@) == preempt_pass(cores@, s2, i as int, test, tasks@, t as int),
            desired@.len() == n,
            choices_below(desired@, ntasks as int),
            indices_below(candidates@, ntasks as int),
        decreases n - i,
    {
        if desired[i].is_none() {
            if let Some(running) = cores[i].running_task {
                if let Some(best) = first_free_exec(&candidates, cores, i) {
                    proof { lemma_index_of_contained(candidates@, best, ntasks as int); }
                    if best == running {
                        desired.set(i, Some(running));
                        proof { lemma_without_below(candidates@, running, ntasks as int); }
                        candidates = remove_task(&candidates, running);
                    } else if preempts_exec(test, tasks, t, best, running) {
                        desired.set(i, Some(best));
                        proof { lemma_without_below(candidates@, best, ntasks as int); }
                        candidates = remove_task(&candidates, best);
                    } else {
                        desired.set(i, Some(running));
                        proof { lemma_without_below(candidates@, running, ntasks as int); }
                        candidates = remove_task(&candidates, running);
                    }
                } else {
                    desired.set(i, Some(running));
                }
            }
        }
        i = i + 1;
    }
    desired
}

// ---------------------------------------------------------------------
// Ranking a candidate pool
// ---------------------------------------------------------------------

/// `ranked` lists each task of `pool` exactly once, every neighbouring pair
/// in order under `rule` by the keys `key` gives the tasks.
pub open spec fn is_ranking(ranked: Seq<usize>, pool: Seq<usize>, key: spec_fn(usize) -> RankKey, rule: RankRule) -> bool {
    &&& ranked.len() == pool.len()
    &&& forall|x: usize| ranked.contains(x) <==> pool.contains(x)
    &&& ranked.no_duplicates()
    &&& forall|i: int| 0 <= i < ranked.len() - 1 ==> !ranks_after(rule, key(#[trigger] ranked[i]), key(ranked[i + 1]))
}

/// Sorts the pool by the given keys and returns the task indices in order.
fn rank_by_keys(keys: Vec<RankKey>, rule: RankRule, Ghost(pool): Ghost<Seq<usize>>, Ghost(key): Ghost<spec_fn(usize) -> RankKey>)
    -> (ranked: Vec<usize>)
    requires
        rule_valid(rule),
        keys@.len() == pool.len(),
        pool.no_duplicates(),
        forall|i: int| 0 <= i < pool.len() ==> #[trigger] keys@[i] == key(pool[i]),
        forall|i: int| 0 <= i < pool.len() ==> (#[trigger] key(pool[i])).idx == pool[i],
        forall|i: int| 0 <= i < keys@.len() ==> key_in_range(#[trigger] keys@[i]),
    ensures
        is_ranking(ranked@, pool, key, rule),
{
    proof {
        assert forall|i: int, j: int| 0 <= i < j < keys@.len() implies keys@[i].idx != keys@[j].idx by {
            assert(keys@[i] == key(pool[i]));
            assert(keys@[j] == key(pool[j]));
        }
    }
    let out = sort_keys(&keys, rule);
    let mut ranked: Vec<usize> = Vec::new();
    let mut m: usize = 0;
    while m < out.len()
        invariant
            m <= out@.len(),
            ranked@.len() == m,
            forall|q: int| 0 <= q < m ==> #[trigger] ranked@[q] == out@[q].idx,
        decreases out@.len() - m,
    {
        ranked.push(out[m].idx);
        m = m + 1;
    }
    proof {
        let o = out@;
        let r = ranked@;
        // every sorted key is the key of its own task, which is in the pool
        assert forall|q: int| 0 <= q < o.len() implies #[trigger] o[q] == key(o[q].idx) && pool.contains(o[q].idx) by {
            assert(o.contains(o[q]));
            assert(keys@.contains(o[q]));
            let p = choose|p: int| 0 <= p < keys@.len() && keys@[p] == o[q];
            assert(keys@[p] == key(pool[p]));
            assert(key(pool[p]).idx == pool[p]);
        }
        assert forall|x: usize| r.contains(x) <==> pool.contains(x) by {
            if r.contains(x) {
                let q = choose|q: int| 0 <= q < r.len() && r[q] == x;
                assert(o[q] == key(o[q].idx));
            }
            if pool.contains(x) {
                let p = choose|p: int| 0 <= p < pool.len() && pool[p] == x;
                assert(keys@[p] == key(pool[p]));
                assert(keys@.contains(keys@[p]));
                assert(o.contains(keys@[p]));
                let q = choose|q: int| 0 <= q < o.len() && o[q] == keys@[p];
                assert(r[q] == x);
            }
        }
        assert forall|i: int, j: int| 0 <= i < r.len() && 0 <= j < r.len() && i != j implies r[i] != r[j] by {
            if i < j {
                assert(o[i].idx != o[j].idx);
            } else {
                assert(o[j].idx != o[i].idx);
            }
        }
        assert forall|i: int| 0 <= i < r.len() - 1 implies !ranks_after(rule, key(#[trigger] r[i]), key(r[i + 1])) by {
            assert(o[i] == key(o[i].idx));
            assert(o[i + 1] == key(o[i + 1].idx));
            assert(!ranks_after(rule, o[i], o[i + 1]));
        }
    }
    ranked
}

// ---------------------------------------------------------------------
// Ranking keys
// ---------------------------------------------------------------------

/// Earliest deadline first.
pub open spec fn edf_key(tasks: Seq<Task>, x: usize) -> RankKey {
    RankKey { idx: x, score: tasks[x as int].deadline as i128, ttc: 0 }
}

/// Least laxity first.
pub open spec fn laxity_key(tasks: Seq<Task>, t: int, x: usize) -> RankKey {
    RankKey { idx: x, score: spec_laxity(tasks[x as int], t) as i128, ttc: 0 }
}

/// The least laxity in a non-empty pool.
pub open spec fn pool_min_laxity(pool: Seq<usize>, tasks: Seq<Task>, t: int) -> int
    decreases pool.len(),
{
    if pool.len() <= 1 {
        spec_laxity(tasks[pool[0] as int], t)
    } else {
        let m = pool_min_laxity(pool.drop_last(), tasks, t);
        let l = spec_laxity(tasks[pool.last() as int], t);
        if l < m { l } else { m }
    }
}

/// The greatest laxity in a non-empty pool.
pub open spec fn pool_max_laxity(pool: Seq<usize>, tasks: Seq<Task>, t: int) -> int
    decreases pool.len(),
{
    if pool.len() <= 1 {
        spec_laxity(tasks[pool[0] as int], t)
    } else {
        let m = pool_max_laxity(pool.drop_last(), tasks, t);
        let l = spec_laxity(tasks[pool.last() as int], t);
        if l > m { l } else { m }
    }
}

/// The laxity span of the pool, at least one unit.
pub open spec fn laxity_span(pool: Seq<usize>, tasks: Seq<Task>, t: int) -> int {
    let s = pool_max_laxity(pool, tasks, t) - pool_min_laxity(pool, tasks, t);
    if s < 1 { 1 } else { s }
}

/// The normalized laxity of pool member `x`, `L_norm = (L - L_min) / span * 5`,
/// multiplied by the span (as it enters `relaxation_score`).
pub open spec fn scaled_normalized_laxity(pool: Seq<usize>, tasks: Seq<Task>, t: int, x: usize) -> int {
    5 * (spec_laxity(tasks[x as int], t) - pool_min_laxity(pool, tasks, t))
}

/// The least and greatest laxity of a pool bound every member's laxity, and
/// some member has each of them.
proof fn lemma_pool_laxity_extremes(pool: Seq<usize>, tasks: Seq<Task>, t: int)
    requires
        pool.len() > 0,
    ensures
        forall|i: int| 0 <= i < pool.len() ==> pool_min_laxity(pool, tasks, t)
            <= #[trigger] spec_laxity(tasks[pool[i] as int], t) <= pool_max_laxity(pool, tasks, t),
        exists|i: int| 0 <= i < pool.len() && #[trigger] spec_laxity(tasks[pool[i] as int], t)
            == pool_min_laxity(pool, tasks, t),
        exists|i: int| 0 <= i < pool.len() && #[trigger] spec_laxity(tasks[pool[i] as int], t)
            == pool_max_laxity(pool, tasks, t),
    decreases pool.len(),
{
    if pool.len() == 1 {
        assert(spec_laxity(tasks[pool[0] as int], t) == pool_min_laxity(pool, tasks, t));
    } else {
        let pre = pool.drop_last();
        lemma_pool_laxity_extremes(pre, tasks, t);
        let last = pool.len() - 1;
        assert forall|i: int| 0 <= i < pool.len() implies pool_min_laxity(pool, tasks, t)
            <= #[trigger] spec_laxity(tasks[pool[i] as int], t) <= pool_max_laxity(pool, tasks, t) by {
            if i < last {
                assert(pool[i] == pre[i]);
            }
        }
        let i0 = choose|i: int| 0 <= i < pre.len() && #[trigger] spec_laxity(tasks[pre[i] as int], t)
            == pool_min_laxity(pre, tasks, t);
        let i1 = choose|i: int| 0 <= i < pre.len() && #[trigger] spec_laxity(tasks[pre[i] as int], t)
            == pool_max_laxity(pre, tasks, t);
        assert(pool[i0] == pre[i0]);
        assert(pool[i1] == pre[i1]);
        if spec_laxity(tasks[pool[last] as int], t) < pool_min_laxity(pre, tasks, t) {
            assert(spec_laxity(tasks[pool[last] as int], t) == pool_min_laxity(pool, tasks, t));
        } else {
            assert(spec_laxity(tasks[pool[i0] as int], t) == pool_min_laxity(pool, tasks, t));
        }
        if spec_laxity(tasks[pool[last] as int], t) > pool_max_laxity(pre, tasks, t) {
            assert(spec_laxity(tasks[pool[last] as int], t) == pool_max_laxity(pool, tasks, t));
        } else {
            assert(spec_laxity(tasks[pool[i1] as int], t) == pool_max_laxity(pool, tasks, t));
        }
    }
}

/// Laxity normalization maps the pool's laxities onto [0, 5]: the least
/// laxity of the pool to 0 and, when the laxities differ, the greatest to
/// exactly 5 (all values here multiplied by the span).
pub proof fn lemma_laxity_normalization_endpoints(pool: Seq<usize>, tasks: Seq<Task>, t: int)
    requires
        pool.len() > 0,
    ensures
        forall|i: int| 0 <= i < pool.len() ==> 0 <= #[trigger] scaled_normalized_laxity(pool, tasks, t, pool[i])
            <= 5 * laxity_span(pool, tasks, t),
        exists|i: int| 0 <= i < pool.len() && #[trigger] scaled_normalized_laxity(pool, tasks, t, pool[i]) == 0,
        pool_max_laxity(pool, tasks, t) > pool_min_laxity(pool, tasks, t) ==> exists|i: int| 0 <= i < pool.len()
            && #[trigger] scaled_normalized_laxity(pool, tasks, t, pool[i]) == 5 * laxity_span(pool, tasks, t),
{
    lemma_pool_laxity_extremes(pool, tasks, t);
    assert forall|i: int| 0 <= i < pool.len() implies 0 <= #[trigger] scaled_normalized_laxity(pool, tasks, t, pool[i])
        <= 5 * laxity_span(pool, tasks, t) by {
        assert(pool_min_laxity(pool, tasks, t) <= spec_laxity(tasks[pool[i] as int], t) <= pool_max_laxity(pool, tasks, t));
    }
    let i0 = choose|i: int| 0 <= i < pool.len() && #[trigger] spec_laxity(tasks[pool[i] as int], t)
        == pool_min_laxity(pool, tasks, t);
    assert(scaled_normalized_laxity(pool, tasks, t, pool[i0]) == 0);
    let i1 = choose|i: int| 0 <= i < pool.len() && #[trigger] spec_laxity(tasks[pool[i] as int], t)
        == pool_max_laxity(pool, tasks, t);
    if pool_max_laxity(pool, tasks, t) > pool_min_laxity(pool, tasks, t) {
        assert(scaled_normalized_laxity(pool, tasks, t, pool[i1]) == 5 * laxity_span(pool, tasks, t));
    }
}

/// The priority of a task as adjusted for the environment: under rain or
/// snow, a task whose obstacle is closer than 100 m gains one (rain) or
/// two (snow) levels, but never above level 1.
pub open spec fn env_priority(tk: Task, lambda: int) -> int {
    let p = tk.priority as int;
    if lambda > 0 && tk.obstacle_distance < 100 * FIXED_ONE {
        let shift = if -100_000 < lambda - 300_000 < 100_000 { 1int } else { 2int };
        if p - shift < 1 { 1 } else { p - shift }
    } else {
        p
    }
}

/// Weather near an obstacle only ever raises a task's importance (lowers its
/// priority number), never below the top level 1; sunny weather leaves the
/// user's priority as it is.
pub proof fn lemma_env_priority_bounds(tk: Task, lambda: int)
    requires
        tk.priority >= 1,
    ensures
        1 <= env_priority(tk, lambda) <= tk.priority,
        lambda == 0 ==> env_priority(tk, lambda) == tk.priority,
{
}

/// The priority used in the relaxation score: the user's, or the
/// environment-adjusted one when a weather lambda is given.
pub open spec fn relaxation_priority(tk: Task, lambda: Option<i64>) -> int {
    match lambda {
        None => tk.priority as int,
        Some(l) => env_priority(tk, l as int),
    }
}

/// `R = theta * L_norm + P` with `L_norm = (L - L_min) / span * 5`,
/// multiplied by `span * FIXED_ONE` so that it is an exact integer.
pub open spec fn relaxation_score(lax: int, lmin: int, span: int, theta: int, prio: int) -> int {
    5 * theta * (lax - lmin) + prio * span * FIXED_ONE
}

/// Half a unit of `R` on the scale of `relaxation_score`.
pub open spec fn relaxation_band(pool: Seq<usize>, tasks: Seq<Task>, t: int) -> int {
    laxity_span(pool, tasks, t) * FIXED_ONE / 2
}

/// Ranking key by relaxation score, with the time to collision as tie-breaker.
pub open spec fn relaxation_key(tasks: Seq<Task>, t: int, pool: Seq<usize>, theta: int, lambda: Option<i64>, x: usize) -> RankKey {
    let tk = tasks[x as int];
    RankKey {
        idx: x,
        score: relaxation_score(
            spec_laxity(tk, t),
            pool_min_laxity(pool, tasks, t),
            laxity_span(pool, tasks, t),
            theta,
            relaxation_priority(tk, lambda),
        ) as i128,
        ttc: (tk.deadline - tk.arrival_time) as i128,
    }
}

pub open spec fn laxity_bounded(l: int) -> bool {
    -0x4_0000_0000_0000_0000int <= l <= 0x4_0000_0000_0000_0000int
}

proof fn lemma_laxity_bounded(tk: Task, t: i64)
    ensures
        laxity_bounded(spec_laxity(tk, t as int)),
{
}

proof fn lemma_pool_laxity_bounds(pool: Seq<usize>, tasks: Seq<Task>, t: i64)
    requires
        pool.len() > 0,
        indices_below(pool, tasks.len() as int),
    ensures
        forall|i: int| 0 <= i < pool.len() ==> pool_min_laxity(pool, tasks, t as int)
            <= #[trigger] spec_laxity(tasks[pool[i] as int], t as int) <= pool_max_laxity(pool, tasks, t as int),
        laxity_bounded(pool_min_laxity(pool, tasks, t as int)),
        laxity_bounded(pool_max_laxity(pool, tasks, t as int)),
    decreases pool.len(),
{
    lemma_laxity_bounded(tasks[pool[0] as int], t);
    if pool.len() > 1 {
        let pre = pool.drop_last();
        lemma_pool_laxity_bounds(pre, tasks, t);
        lemma_laxity_bounded(tasks[pool.last() as int], t);
        assert forall|i: int| 0 <= i < pool.len() implies pool_min_laxity(pool, tasks, t as int)
            <= #[trigger] spec_laxity(tasks[pool[i] as int], t as int) <= pool_max_laxity(pool, tasks, t as int) by {
            if i < pool.len() - 1 {
                assert(pool[i] == pre[i]);
            }
        }
    }
}

fn edf_keys(pool: &Vec<usize>, tasks: &[Task]) -> (keys: Vec<RankKey>)
    requires
        indices_below(pool@, tasks@.len() as int),
    ensures
        keys@.len() == pool@.len(),
        forall|i: int| 0 <= i < pool@.len() ==> #[trigger] keys@[i] == edf_key(tasks@, pool@[i]),
        forall|i: int| 0 <= i < keys@.len() ==> key_in_range(#[trigger] keys@[i]),
{
    let mut keys: Vec<RankKey> = Vec::new();
    let mut i: usize = 0;
    while i < pool.len()
        invariant
            i <= pool@.len(),
            indices_below(pool@, tasks@.len() as int),
            keys@.len() == i,
            forall|q: int| 0 <= q < i ==> #[trigger] keys@[q] == edf_key(tasks@, pool@[q]),
            forall|q: int| 0 <= q < i ==> key_in_range(#[trigger] keys@[q]),
        decreases pool@.len() - i,
    {
        let x = pool[i];
        keys.push(RankKey { idx: x, score: tasks[x].deadline as i128, ttc: 0 });
        i = i + 1;
    }
    keys
}

fn laxity_keys(pool: &Vec<usize>, tasks: &[Task], t: i64) -> (keys: Vec<RankKey>)
    requires
        indices_below(pool@, tasks@.len() as int),
    ensures
        keys@.len() == pool@.len(),
        forall|i: int| 0 <= i < pool@.len() ==> #[trigger] keys@[i] == laxity_key(tasks@, t as int, pool@[i]),
        forall|i: int| 0 <= i < keys@.len() ==> key_in_range(#[trigger] keys@[i]),
{
    let mut keys: Vec<RankKey> = Vec::new();
    let mut i: usize = 0;
    while i < pool.len()
        invariant
            i <= pool@.len(),
            indices_below(pool@, tasks@.len() as int),
            keys@.len() == i,
            forall|q: int| 0 <= q < i ==> #[trigger] keys@[q] == laxity_key(tasks@, t as int, pool@[q]),
            forall|q: int| 0 <= q < i ==> key_in_range(#[trigger] keys@[q]),
        decreases pool@.len() - i,
    {
        let x = pool[i];
        keys.push(RankKey { idx: x, score: tasks[x].laxity(t), ttc: 0 });
        i = i + 1;
    }
    keys
}

/// The environment-adjusted priority of a task.
fn adjusted_priority(tk: &Task, lambda: Option<i64>) -> (p: i64)
    ensures
        p == relaxation_priority(*tk, lambda),
        0 <= p <= 255,
{
    let mut p: i64 = tk.priority as i64;
    if let Some(l) = lambda {
        if l > 0 && tk.obstacle_distance < 100 * FIXED_ONE {
            let shift: i64 = if -100_000 < l as i128 - 300_000 && (l as i128 - 300_000) < 100_000 { 1 } else { 2 };
            p = p - shift;
            if p < 1 {
                p = 1;
            }
        }
    }
    p
}

proof fn lemma_score_bounds(lax: int, lmin: int, span: int, theta: int, prio: int)
    requires
        0 <= lax - lmin <= 0x10_0000_0000_0000_0000int,
        1 <= span <= 0x10_0000_0000_0000_0000int,
        0 <= theta <= 0x100_0000,
        0 <= prio <= 255,
    ensures
        0 <= relaxation_score(lax, lmin, span, theta, prio) <= 0x10_0000_0000_0000_0000_0000_0000int,
{
    assert(0 <= 5 * theta * (lax - lmin) <= 5 * 0x100_0000 * 0x10_0000_0000_0000_0000int) by (nonlinear_arith)
        requires 0 <= lax - lmin <= 0x10_0000_0000_0000_0000int, 0 <= theta <= 0x100_0000;
    assert(0 <= prio * span * FIXED_ONE <= 255 * 0x10_0000_0000_0000_0000int * FIXED_ONE) by (nonlinear_arith)
        requires 1 <= span <= 0x10_0000_0000_0000_0000int, 0 <= prio <= 255;
}

/// Relaxation keys of a non-empty pool, and the tie band between them.
fn relaxation_keys(pool: &Vec<usize>, tasks: &[Task], t: i64, theta: i128, lambda: Option<i64>)
    -> (res: (Vec<RankKey>, i128))
    requires
        pool@.len() > 0,
        indices_below(pool@, tasks@.len() as int),
        0 <= theta <= 0x100_0000,
    ensures
        res.0@.len() == pool@.len(),
        forall|i: int| 0 <= i < pool@.len() ==> #[trigger] res.0@[i] == relaxation_key(tasks@, t as int, pool@, theta as int, lambda, pool@[i]),
        forall|i: int| 0 <= i < res.0@.len() ==> key_in_range(#[trigger] res.0@[i]),
        res.1 == relaxation_band(pool@, tasks@, t as int),
        rule_valid(RankRule::TieBand { band: res.1 }),
{
    let n = pool.len();
    let mut l_min: i128 = tasks[pool[0]].laxity(t);
    let mut l_max: i128 = l_min;
    let mut i: usize = 1;
    while i < n
        invariant
            0 < i <= n == pool@.len(),
            indices_below(pool@, tasks@.len() as int),
            l_min == pool_min_laxity(pool@.take(i as int), tasks@, t as int),
            l_max == pool_max_laxity(pool@.take(i as int), tasks@, t as int),
        decreases n - i,
    {
        assert(pool@.take(i as int + 1).drop_last() =~= pool@.take(i as int));
        let l = tasks[pool[i]].laxity(t);
        if l < l_min {
            l_min = l;
        }
        if l > l_max {
            l_max = l;
        }
        i = i + 1;
    }
    assert(pool@.take(n as int) =~= pool@);
    proof {
        lemma_pool_laxity_bounds(pool@, tasks@, t);
    }
    let mut span: i128 = l_max - l_min;
    if span < 1 {
        span = 1;
    }
    assert(1 <= span <= 0x10_0000_0000_0000_0000int);
    let band: i128 = span * (FIXED_ONE as i128) / 2;
    let mut keys: Vec<RankKey> = Vec::new();
    let mut k: usize = 0;
    while k < n
        invariant
            k <= n == pool@.len(),
            indices_below(pool@, tasks@.len() as int),
            0 <= theta <= 0x100_0000,
            l_min == pool_min_laxity(pool@, tasks@, t as int),
            span == laxity_span(pool@, tasks@, t as int),
            1 <= span <= 0x10_0000_0000_0000_0000int,
            forall|q: int| 0 <= q < pool@.len() ==> pool_min_laxity(pool@, tasks@, t as int)
                <= #[trigger] spec_laxity(tasks@[pool@[q] as int], t as int) <= pool_max_laxity(pool@, tasks@, t as int),
            laxity_bounded(pool_min_laxity(pool@, tasks@, t as int)),
            laxity_bounded(pool_max_laxity(pool@, tasks@, t as int)),
            keys@.len() == k,
            forall|q: int| 0 <= q < k ==> #[trigger] keys@[q] == relaxation_key(tasks@, t as int, pool@, theta as int, lambda, pool@[q]),
            forall|q: int| 0 <= q < k ==> key_in_range(#[trigger] keys@[q]),
        decreases n - k,
    {
        let x = pool[k];
        let tk = &tasks[x];
        let lax = tk.laxity(t);
        let prio = adjusted_priority(tk, lambda);
        assert(spec_laxity(tasks@[pool@[k as int] as int], t as int) == lax);
        proof {
            lemma_score_bounds(lax as int, l_min as int, span as int, theta as int, prio as int);
        }
        let score: i128 = 5 * theta * (lax - l_min) + (prio as i128) * span * (FIXED_ONE as i128);
        let ttc: i128 = tk.deadline as i128 - tk.arrival_time as i128;
        keys.push(RankKey { idx: x, score, ttc });
        k = k + 1;
    }
    (keys, band)
}

// ---------------------------------------------------------------------
// Candidate pools of the schedulers
// ---------------------------------------------------------------------

/// Global schedulers: unlocked ready tasks plus the tasks running on
/// non-switching cores.
pub open spec fn global_pool(ready: Seq<usize>, cores: Seq<CoreView>) -> Seq<usize> {
    with_running(unlocked_ready(ready, cores), cores)
}

/// Hybrid schedulers: as `global_pool`, but ready tasks whose laxity is
/// already negative are left out (proactive drop).
pub open spec fn hybrid_pool(ready: Seq<usize>, cores: Seq<CoreView>, tasks: Seq<Task>, t: int) -> Seq<usize> {
    with_running(nonnegative_laxity(unlocked_ready(ready, cores), tasks, t), cores)
}

pub proof fn lemma_nonnegative_laxity_props(pool: Seq<usize>, tasks: Seq<Task>, t: int)
    ensures
        forall|x: usize| nonnegative_laxity(pool, tasks, t).contains(x)
            <==> pool.contains(x) && spec_laxity(tasks[x as int], t) >= 0,
        pool.no_duplicates() ==> nonnegative_laxity(pool, tasks, t).no_duplicates(),
    decreases pool.len(),
{
    if pool.len() > 0 {
        let pre = pool.drop_last();
        lemma_nonnegative_laxity_props(pre, tasks, t);
        lemma_drop_last_contains(pool);
        lemma_push_contains(nonnegative_laxity(pre, tasks, t), pool.last());
        assert forall|x: usize| nonnegative_laxity(pool, tasks, t).contains(x)
            <==> pool.contains(x) && spec_laxity(tasks[x as int], t) >= 0 by {
            let last = pool.last();
            let rest = nonnegative_laxity(pre, tasks, t);
            assert(pool.contains(x) <==> pre.contains(x) || x == last);
            assert(rest.contains(x) <==> pre.contains(x) && spec_laxity(tasks[x as int], t) >= 0);
            if spec_laxity(tasks[last as int], t) >= 0 {
                assert(nonnegative_laxity(pool, tasks, t) == rest.push(last));
                assert(rest.push(last).contains(x) <==> rest.contains(x) || x == last);
            } else {
                assert(nonnegative_laxity(pool, tasks, t) == rest);
            }
        }
        if pool.no_duplicates() {
            assert(pre.no_duplicates()) by {
                assert forall|i: int, j: int| 0 <= i < pre.len() && 0 <= j < pre.len() && i != j
                    implies pre[i] != pre[j] by {
                    assert(pre[i] == pool[i] && pre[j] == pool[j]);
                }
            }
            assert(!pre.contains(pool.last())) by {
                if pre.contains(pool.last()) {
                    let k = choose|k: int| 0 <= k < pre.len() && pre[k] == pool.last();
                    assert(pool[k] == pool[pool.len() - 1]);
                }
            }
            if spec_laxity(tasks[pool.last() as int], t) >= 0 {
                lemma_push_no_dups(nonnegative_laxity(pre, tasks, t), pool.last());
            }
        }
    }
}

pub proof fn lemma_contained_below(s: Seq<usize>, ready: Seq<usize>, cores: Seq<CoreView>, n: int)
    requires
        indices_below(ready, n),
        cores_below(cores, n),
        forall|y: usize| s.contains(y) ==> ready.contains(y)
            || exists|i: int| 0 <= i < cores.len() && #[trigger] cores[i].running_task == Some(y),
    ensures
        indices_below(s, n),
{
    assert forall|q: int| 0 <= q < s.len() implies #[trigger] s[q] < n by {
        assert(s.contains(s[q]));
        if ready.contains(s[q]) {
            let k = choose|k: int| 0 <= k < ready.len() && ready[k] == s[q];
        } else {
            let i = choose|i: int| 0 <= i < cores.len() && #[trigger] cores[i].running_task == Some(s[q]);
        }
    }
}

pub proof fn lemma_global_pool_props(ready: Seq<usize>, cores: Seq<CoreView>, n: int)
    requires
        indices_below(ready, n),
        cores_below(cores, n),
    ensures
        indices_below(global_pool(ready, cores), n),
        global_pool(ready, cores).no_duplicates(),
{
    lemma_unlocked_ready_props(ready, cores);
    lemma_with_running_props(unlocked_ready(ready, cores), cores);
    lemma_contained_below(global_pool(ready, cores), ready, cores, n);
}

pub proof fn lemma_hybrid_pool_props(ready: Seq<usize>, cores: Seq<CoreView>, tasks: Seq<Task>, t: int)
    requires
        indices_below(ready, tasks.len() as int),
        cores_below(cores, tasks.len() as int),
    ensures
        indices_below(hybrid_pool(ready, cores, tasks, t), tasks.len() as int),
        hybrid_pool(ready, cores, tasks, t).no_duplicates(),
{
    let u = unlocked_ready(ready, cores);
    lemma_unlocked_ready_props(ready, cores);
    lemma_nonnegative_laxity_props(u, tasks, t);
    lemma_with_running_props(nonnegative_laxity(u, tasks, t), cores);
    lemma_contained_below(hybrid_pool(ready, cores, tasks, t), ready, cores, tasks.len() as int);
}

// ---------------------------------------------------------------------
// The scheduler interface
// ---------------------------------------------------------------------

pub trait Scheduler {
    /// The rankings this scheduler gives: `rule(ready, tasks, t, config,
    /// ranked)` holds when `ranked` is a ranking it gives for the ready queue
    /// `ready` over `tasks` at time `t` (see `rank_tasks`).
    spec fn rule(&self) -> RankingRule;

    /// Whether this scheduler binds arrivals to cores, and so needs at least one.
    spec fn needs_cores(&self) -> bool;

    /// Called exactly once when a task arrives in the system.
    /// Partitioned schedulers use this to assign tasks to specific cores.
    fn on_task_arrival(&mut self, task_idx: usize, tasks: &[Task], config: &SimConfig)
        requires
            old(self).needs_cores() ==> config.num_cores > 0,
        ensures
            final(self).needs_cores() == old(self).needs_cores(),
            final(self).rule() == old(self).rule(),
    {
    }

    /// Called every tick. Returns, for each core, the task it SHOULD run,
    /// or `None` if it should idle.
    fn schedule(
        &mut self,
        ready_queue: &[usize],
        cores: &[CoreView],
        tasks: &[Task],
        current_time: i64,
        config: &SimConfig,
    ) -> (desired: Vec<Option<usize>>)
        requires
            indices_below(ready_queue@, tasks@.len() as int),
            cores_below(cores@, tasks@.len() as int),
        ensures
            desired@.len() == cores@.len(),
            choices_below(desired@, tasks@.len() as int),
    ;

    /// Orders the ready queue from most to least urgent.
    fn rank_tasks(&mut self, ready_queue: &[usize], tasks: &[Task], current_time: i64, config: &SimConfig)
        -> (ranked: Vec<usize>)
        requires
            indices_below(ready_queue@, tasks@.len() as int),
            ready_queue@.no_duplicates(),
        ensures
            ranked@.no_duplicates(),
            forall|x: usize| ranked@.contains(x) ==> ready_queue@.contains(x),
            (old(self).rule())(ready_queue@, tasks@, current_time as int, *config, ranked@),
            final(self).needs_cores() == old(self).needs_cores(),
            final(self).rule() == old(self).rule(),
    ;
}

/// Earliest deadline first, ties by task index.
pub open spec fn edf_ranking(ready: Seq<usize>, tasks: Seq<Task>, ranked: Seq<usize>) -> bool {
    is_ranking(ranked, ready, |x: usize| edf_key(tasks, x), RankRule::ByScore)
}

/// Least laxity first, ties by task index.
pub open spec fn laxity_ranking(ready: Seq<usize>, tasks: Seq<Task>, t: int, ranked: Seq<usize>) -> bool {
    is_ranking(ranked, ready, |x: usize| laxity_key(tasks, t, x), RankRule::ByScore)
}

/// The tasks that can still make their deadline, lowest relaxation score
/// first, near ties by time to collision.
pub open spec fn relaxation_ranking(
    ready: Seq<usize>,
    tasks: Seq<Task>,
    t: int,
    theta: int,
    lambda: Option<i64>,
    ranked: Seq<usize>,
) -> bool {
    let pool = nonnegative_laxity(ready, tasks, t);
    &&& pool.len() == 0 ==> ranked.len() == 0
    &&& pool.len() > 0 ==> is_ranking(ranked, pool,
            |x: usize| relaxation_key(tasks, t, pool, theta, lambda, x),
            relaxation_rule(pool, tasks, t))
}

/// What Global EDF assigns: the pool ranked by deadline, then cores kept,
/// preempted or filled.
pub open spec fn edf_schedule(ready: Seq<usize>, cores: Seq<CoreView>, tasks: Seq<Task>, t: int, desired: Seq<Option<usize>>) -> bool {
    exists|ranked: Seq<usize>|
        is_ranking(ranked, global_pool(ready, cores), |x: usize| edf_key(tasks, x), RankRule::ByScore)
        && desired == assignment(cores, ranked, PreemptTest::EarlierDeadline, tasks, t)
}

/// What MLLF assigns: the pool ranked by laxity, then cores kept,
/// preempted or filled.
pub open spec fn mllf_schedule(ready: Seq<usize>, cores: Seq<CoreView>, tasks: Seq<Task>, t: int, desired: Seq<Option<usize>>) -> bool {
    exists|ranked: Seq<usize>|
        is_ranking(ranked, global_pool(ready, cores), |x: usize| laxity_key(tasks, t, x), RankRule::ByScore)
        && desired == assignment(cores, ranked, PreemptTest::LowerLaxity, tasks, t)
}

/// What a relaxation-based scheduler assigns: the tasks that can still
/// make their deadline, ranked by relaxation score; every core keeps its
/// task when there are none.
pub open spec fn relaxation_schedule(
    ready: Seq<usize>,
    cores: Seq<CoreView>,
    tasks: Seq<Task>,
    t: int,
    theta: int,
    lambda: Option<i64>,
    switch_cost: i64,
    desired: Seq<Option<usize>>,
) -> bool {
    let pool = hybrid_pool(ready, cores, tasks, t);
    &&& pool.len() == 0 ==> desired == keep_running(cores)
    &&& pool.len() > 0 ==> exists|ranked: Seq<usize>|
        is_ranking(ranked, pool,
            |x: usize| relaxation_key(tasks, t, pool, theta, lambda, x),
            relaxation_rule(pool, tasks, t))
        && desired == assignment(cores, ranked, PreemptTest::LaxityBelowRemaining { switch_cost }, tasks, t)
}


// ---------------------------------------------------------------------
// What the rankings and tests mean, in terms of the task fields
// ---------------------------------------------------------------------

/// Environment-adjusted priority: away from obstacles (100 m or farther),
/// or in dry weather, a task keeps its user priority; closer than 100 m,
/// rain raises it one level and snow two levels (lower numbers are more
/// important), never past level 1.
pub proof fn lemma_env_priority_near_obstacles(tk: Task, w: Weather)
    ensures
        tk.obstacle_distance >= 100 * FIXED_ONE ==> env_priority(tk, spec_lambda(w)) == tk.priority,
        w == Weather::Sunny ==> env_priority(tk, spec_lambda(w)) == tk.priority,
        w == Weather::Rainy && tk.obstacle_distance < 100 * FIXED_ONE ==> env_priority(tk, spec_lambda(w))
            == (if tk.priority - 1 < 1 { 1 } else { tk.priority - 1 }),
        w == Weather::Snowy && tk.obstacle_distance < 100 * FIXED_ONE ==> env_priority(tk, spec_lambda(w))
            == (if tk.priority - 2 < 1 { 1 } else { tk.priority - 2 }),
{
}

/// Keys in a by-score ranking never go down: a task ranked earlier has a
/// score no greater than one ranked later.
proof fn lemma_by_score_ranking_order(ranked: Seq<usize>, pool: Seq<usize>, key: spec_fn(usize) -> RankKey, i: int, j: int)
    requires
        is_ranking(ranked, pool, key, RankRule::ByScore),
        0 <= i < j < ranked.len(),
    ensures
        key(ranked[i]).score <= key(ranked[j]).score,
{
    let ks = Seq::new(ranked.len(), |k: int| key(ranked[k]));
    assert(crate::ranking::locally_sorted(RankRule::ByScore, ks)) by {
        assert forall|k: int| 0 <= k < ks.len() - 1 implies !ranks_after(RankRule::ByScore, #[trigger] ks[k], ks[k + 1]) by {
            assert(ks[k] == key(ranked[k]) && ks[k + 1] == key(ranked[k + 1]));
        }
    }
    lemma_by_score_locally_sorted_is_sorted(ks);
    assert(!ranks_after(RankRule::ByScore, ks[i], ks[j]));
}

/// EDF ranks by absolute deadline: in any ranking of a pool by the EDF
/// keys (the ranking `rank_tasks` returns and the one `schedule` assigns
/// cores by), a task with an earlier deadline comes first, whatever the
/// arrival times.
pub proof fn lemma_edf_earlier_deadline_first(ranked: Seq<usize>, pool: Seq<usize>, tasks: Seq<Task>, i: int, j: int)
    requires
        is_ranking(ranked, pool, |x: usize| edf_key(tasks, x), RankRule::ByScore),
        0 <= i < ranked.len(),
        0 <= j < ranked.len(),
        tasks[ranked[i] as int].deadline < tasks[ranked[j] as int].deadline,
    ensures
        i < j,
{
    if j < i {
        lemma_by_score_ranking_order(ranked, pool, |x: usize| edf_key(tasks, x), j, i);
    } else if i == j {
    }
}

/// MLLF ranks by laxity: in any ranking of a pool by the MLLF keys, a task
/// with smaller laxity (deadline - t - remaining time) comes first.
pub proof fn lemma_mllf_least_laxity_first(ranked: Seq<usize>, pool: Seq<usize>, tasks: Seq<Task>, t: int, i: int, j: int)
    requires
        is_ranking(ranked, pool, |x: usize| laxity_key(tasks, t, x), RankRule::ByScore),
        0 <= i < ranked.len(),
        0 <= j < ranked.len(),
        tasks[ranked[i] as int].deadline - tasks[ranked[i] as int].remaining_time
            < tasks[ranked[j] as int].deadline - tasks[ranked[j] as int].remaining_time,
        i128::MIN <= spec_laxity(tasks[ranked[i] as int], t) <= i128::MAX,
        i128::MIN <= spec_laxity(tasks[ranked[j] as int], t) <= i128::MAX,
    ensures
        i < j,
{
    if j < i {
        lemma_by_score_ranking_order(ranked, pool, |x: usize| laxity_key(tasks, t, x), j, i);
    }
}

/// The relaxation tie band is half a unit of `R`: when two pool tasks'
/// relaxation scores differ by at most 0.5 (the scores carry `R` scaled by
/// the laxity span times `FIXED_ONE`) and their times to collision differ
/// by more than half a tick, the one with the shorter time to collision is
/// ranked first.
pub proof fn lemma_relaxation_near_tie_by_ttc(
    pool: Seq<usize>,
    tasks: Seq<Task>,
    t: int,
    theta: int,
    lambda: Option<i64>,
    a: usize,
    b: usize,
)
    requires
        pool.len() > 0,
        laxity_span(pool, tasks, t) * FIXED_ONE <= 0x1000_0000_0000_0000_0000_0000_0000_0000,
        ({
            let ka = relaxation_key(tasks, t, pool, theta, lambda, a);
            let kb = relaxation_key(tasks, t, pool, theta, lambda, b);
            &&& 2 * (ka.score - kb.score) <= laxity_span(pool, tasks, t) * FIXED_ONE
            &&& 2 * (kb.score - ka.score) <= laxity_span(pool, tasks, t) * FIXED_ONE
            &&& ka.ttc - kb.ttc > TTC_MARGIN
        }),
    ensures
        ranks_after(relaxation_rule(pool, tasks, t), relaxation_key(tasks, t, pool, theta, lambda, a),
            relaxation_key(tasks, t, pool, theta, lambda, b)),
        !ranks_after(relaxation_rule(pool, tasks, t), relaxation_key(tasks, t, pool, theta, lambda, b),
            relaxation_key(tasks, t, pool, theta, lambda, a)),
{
    let span = laxity_span(pool, tasks, t);
    assert(span >= 1);
    assert((span * FIXED_ONE) / 2 * 2 == span * FIXED_ONE) by (nonlinear_arith)
        requires span >= 1;
}

/// The relaxation score `R = theta * L_norm + P` (scaled by the laxity span
/// times `FIXED_ONE`) grows with laxity when theta is positive and with the
/// priority number: at equal priority the task with less laxity scores
/// lower, at equal laxity the more important task (smaller priority
/// number) scores lower, and a task at the pool's least laxity scores just
/// its priority.
pub proof fn lemma_relaxation_score_monotone(lax1: int, lax2: int, lmin: int, span: int, theta: int, p1: int, p2: int)
    requires
        span >= 1,
        theta >= 0,
    ensures
        theta > 0 && lax1 < lax2 ==> relaxation_score(lax1, lmin, span, theta, p1) < relaxation_score(lax2, lmin, span, theta, p1),
        p1 < p2 ==> relaxation_score(lax1, lmin, span, theta, p1) < relaxation_score(lax1, lmin, span, theta, p2),
        relaxation_score(lmin, lmin, span, theta, p1) == p1 * span * FIXED_ONE,
        lax1 <= lax2 && p1 <= p2 ==> relaxation_score(lax1, lmin, span, theta, p1) <= relaxation_score(lax2, lmin, span, theta, p2),
{
    assert(theta > 0 && lax1 < lax2 ==> 5 * theta * (lax1 - lmin) < 5 * theta * (lax2 - lmin)) by (nonlinear_arith);
    assert(p1 < p2 ==> p1 * span * FIXED_ONE < p2 * span * FIXED_ONE) by (nonlinear_arith)
        requires span >= 1;
    assert(lax1 <= lax2 ==> 5 * theta * (lax1 - lmin) <= 5 * theta * (lax2 - lmin)) by (nonlinear_arith)
        requires theta >= 0;
    assert(p1 <= p2 ==> p1 * span * FIXED_ONE <= p2 * span * FIXED_ONE) by (nonlinear_arith)
        requires span >= 1;
    assert(5 * theta * (lmin - lmin) == 0) by (nonlinear_arith);
}

/// With one busy core and a first candidate other than its task, the core
/// runs whichever of the two the preemption test picks.
proof fn lemma_single_core_assignment(core: CoreView, ranked: Seq<usize>, test: PreemptTest, tasks: Seq<Task>, t: int)
    requires
        !core.is_switching,
        core.running_task is Some,
        ranked.len() > 0,
        Some(ranked[0]) != core.running_task,
    ensures
        assignment(seq![core], ranked, test, tasks, t)[0] == (if preempts(test, tasks, t, ranked[0], core.running_task->0) {
            Some(ranked[0])
        } else {
            core.running_task
        }),
{
    let cores = seq![core];
    let init = (Seq::new(1, |i: int| None::<usize>), ranked);
    let s1 = lock_pass(cores, init, 1);
    assert(lock_pass(cores, init, 0) == init);
    assert(s1 == init);
    let s2 = fill_pass(cores, s1, 1);
    assert(fill_pass(cores, s1, 0) == s1);
    assert(s2 == s1);
    assert(!runs_elsewhere(cores, ranked[0], 0));
    assert(first_free(ranked, cores, 0) == Some(ranked[0]));
    assert(preempt_pass(cores, s2, 0, test, tasks, t) == s2);
}

/// MLLF preempts exactly for a lower laxity: a busy core is handed another
/// task only when that task's laxity is strictly lower than the running
/// task's, and with one core the best-ranked waiting task with strictly
/// lower laxity does take it over.
pub proof fn lemma_mllf_preempts_for_lower_laxity(cores: Seq<CoreView>, ranked: Seq<usize>, tasks: Seq<Task>, t: int, k: int)
    requires
        0 <= k < cores.len(),
        !cores[k].is_switching,
        cores[k].running_task is Some,
    ensures
        ({
            let r = cores[k].running_task->0;
            let d = assignment(cores, ranked, PreemptTest::LowerLaxity, tasks, t)[k];
            d is Some && d->0 != r ==> tasks[d->0 as int].deadline - tasks[d->0 as int].remaining_time
                < tasks[r as int].deadline - tasks[r as int].remaining_time
        }),
        ({
            let r = cores[k].running_task->0;
            cores.len() == 1 && ranked.len() > 0 && ranked[0] != r
                && tasks[ranked[0] as int].deadline - tasks[ranked[0] as int].remaining_time
                    < tasks[r as int].deadline - tasks[r as int].remaining_time
                ==> assignment(cores, ranked, PreemptTest::LowerLaxity, tasks, t)[k] == Some(ranked[0])
        }),
{
    lemma_preemption_needs_test(cores, ranked, PreemptTest::LowerLaxity, tasks, t, k);
    let r = cores[k].running_task->0;
    if cores.len() == 1 && ranked.len() > 0 && ranked[0] != r {
        assert(cores == seq![cores[0]]);
        lemma_single_core_assignment(cores[0], ranked, PreemptTest::LowerLaxity, tasks, t);
    }
}

/// EDF preempts exactly for an earlier deadline, in the same sense.
pub proof fn lemma_edf_preempts_for_earlier_deadline(cores: Seq<CoreView>, ranked: Seq<usize>, tasks: Seq<Task>, t: int, k: int)
    requires
        0 <= k < cores.len(),
        !cores[k].is_switching,
        cores[k].running_task is Some,
    ensures
        ({
            let r = cores[k].running_task->0;
            let d = assignment(cores, ranked, PreemptTest::EarlierDeadline, tasks, t)[k];
            d is Some && d->0 != r ==> tasks[d->0 as int].deadline < tasks[r as int].deadline
        }),
        ({
            let r = cores[k].running_task->0;
            cores.len() == 1 && ranked.len() > 0 && ranked[0] != r
                && tasks[ranked[0] as int].deadline < tasks[r as int].deadline
                ==> assignment(cores, ranked, PreemptTest::EarlierDeadline, tasks, t)[k] == Some(ranked[0])
        }),
{
    lemma_preemption_needs_test(cores, ranked, PreemptTest::EarlierDeadline, tasks, t, k);
    let r = cores[k].running_task->0;
    if cores.len() == 1 && ranked.len() > 0 && ranked[0] != r {
        assert(cores == seq![cores[0]]);
        lemma_single_core_assignment(cores[0], ranked, PreemptTest::EarlierDeadline, tasks, t);
    }
}

/// The hybrid schedulers preempt exactly when the candidate's laxity is
/// below the running task's remaining time plus twice the switch cost.
pub proof fn lemma_hybrid_preempts_below_remaining(
    cores: Seq<CoreView>,
    ranked: Seq<usize>,
    switch_cost: i64,
    tasks: Seq<Task>,
    t: int,
    k: int,
)
    requires
        0 <= k < cores.len(),
        !cores[k].is_switching,
        cores[k].running_task is Some,
    ensures
        ({
            let r = cores[k].running_task->0;
            let d = assignment(cores, ranked, PreemptTest::LaxityBelowRemaining { switch_cost }, tasks, t)[k];
            d is Some && d->0 != r ==> tasks[d->0 as int].deadline - t - tasks[d->0 as int].remaining_time
                < tasks[r as int].remaining_time + 2 * switch_cost
        }),
        ({
            let r = cores[k].running_task->0;
            cores.len() == 1 && ranked.len() > 0 && ranked[0] != r
                && tasks[ranked[0] as int].deadline - t - tasks[ranked[0] as int].remaining_time
                    < tasks[r as int].remaining_time + 2 * switch_cost
                ==> assignment(cores, ranked, PreemptTest::LaxityBelowRemaining { switch_cost }, tasks, t)[k]
                    == Some(ranked[0])
        }),
{
    lemma_preemption_needs_test(cores, ranked, PreemptTest::LaxityBelowRemaining { switch_cost }, tasks, t, k);
    let r = cores[k].running_task->0;
    if cores.len() == 1 && ranked.len() > 0 && ranked[0] != r {
        assert(cores == seq![cores[0]]);
        lemma_single_core_assignment(cores[0], ranked, PreemptTest::LaxityBelowRemaining { switch_cost }, tasks, t);
    }
}

/// Collects a slice into a vector.
fn slice_to_vec(s: &[usize]) -> (v: Vec<usize>)
    ensures
        v@ == s@,
{
    let mut v: Vec<usize> = Vec::new();
    let mut i: usize = 0;
    while i < s.len()
        invariant
            i <= s@.len(),
            v@ == s@.take(i as int),
        decreases s@.len() - i,
    {
        v.push(s[i]);
        i = i + 1;
        assert(v@ =~= s@.take(i as int));
    }
    assert(s@.take(s@.len() as int) =~= s@);
    v
}

// ==========================================
// 1. GLOBAL EDF SCHEDULER
// ==========================================
pub struct GlobalEdf;

impl Scheduler for GlobalEdf {
    open spec fn needs_cores(&self) -> bool {
        false
    }

    open spec fn rule(&self) -> RankingRule {
        |ready: Seq<usize>, tasks: Seq<Task>, t: int, config: SimConfig, ranked: Seq<usize>|
            edf_ranking(ready, tasks, ranked)
    }

    fn schedule(
        &mut self,
        ready_queue: &[usize],
        cores: &[CoreView],
        tasks: &[Task],
        current_time: i64,
        config: &SimConfig,
    ) -> (desired: Vec<Option<usize>>)
        ensures
            edf_schedule(ready_queue@, cores@, tasks@, current_time as int, desired@),
    {
        let ready_candidates = collect_unlocked(ready_queue, cores);
        let available_tasks = add_running_tasks(ready_candidates, cores);
        proof {
            lemma_global_pool_props(ready_queue@, cores@, tasks@.len() as int);
        }
        // Sort by Earliest Deadline First, with task_idx as a deterministic tie-breaker
        let keys = edf_keys(&available_tasks, tasks);
        let candidates = rank_by_keys(keys, RankRule::ByScore, Ghost(available_tasks@), Ghost(|x: usize| edf_key(tasks@, x)));
        proof {
            lemma_contained_below(candidates@, available_tasks@, seq![], tasks@.len() as int);
        }
        assign_cores(candidates, cores, tasks, current_time, PreemptTest::EarlierDeadline)
    }

    fn rank_tasks(&mut self, ready_queue: &[usize], tasks: &[Task], current_time: i64, config: &SimConfig)
        -> (ranked: Vec<usize>)
        ensures
            is_ranking(ranked@, ready_queue@, |x: usize| edf_key(tasks@, x), RankRule::ByScore),
    {
        let pool = slice_to_vec(ready_queue);
        let keys = edf_keys(&pool, tasks);
        rank_by_keys(keys, RankRule::ByScore, Ghost(pool@), Ghost(|x: usize| edf_key(tasks@, x)))
    }
}

// ==========================================
// 3. MODIFIED LEAST LAXITY FIRST (MLLF)
// ==========================================
pub struct Mllf;

impl Scheduler for Mllf {
    open spec fn needs_cores(&self) -> bool {
        false
    }

    open spec fn rule(&self) -> RankingRule {
        |ready: Seq<usize>, tasks: Seq<Task>, t: int, config: SimConfig, ranked: Seq<usize>|
            laxity_ranking(ready, tasks, t, ranked)
    }

    fn schedule(
        &mut self,
        ready_queue: &[usize],
        cores: &[CoreView],
        tasks: &[Task],
        current_time: i64,
        config: &SimConfig,
    ) -> (desired: Vec<Option<usize>>)
        ensures
            mllf_schedule(ready_queue@, cores@, tasks@, current_time as int, desired@),
    {
        let ready_candidates = collect_unlocked(ready_queue, cores);
        let available_tasks = add_running_tasks(ready_candidates, cores);
        proof {
            lemma_global_pool_props(ready_queue@, cores@, tasks@.len() as int);
        }
        // Sort by Laxity (Lowest First), task_idx as tie-breaker
        let keys = laxity_keys(&available_tasks, tasks, current_time);
        let candidates = rank_by_keys(keys, RankRule::ByScore, Ghost(available_tasks@),
            Ghost(|x: usize| laxity_key(tasks@, current_time as int, x)));
        proof {
            lemma_contained_below(candidates@, available_tasks@, seq![], tasks@.len() as int);
        }
        assign_cores(candidates, cores, tasks, current_time, PreemptTest::LowerLaxity)
    }

    fn rank_tasks(&mut self, ready_queue: &[usize], tasks: &[Task], current_time: i64, config: &SimConfig)
        -> (ranked: Vec<usize>)
        ensures
            is_ranking(ranked@, ready_queue@, |x: usize| laxity_key(tasks@, current_time as int, x), RankRule::ByScore),
    {
        let pool = slice_to_vec(ready_queue);
        let keys = laxity_keys(&pool, tasks, current_time);
        rank_by_keys(keys, RankRule::ByScore, Ghost(pool@), Ghost(|x: usize| laxity_key(tasks@, current_time as int, x)))
    }
}

/// What every core keeps when there is nothing to choose from.
pub open spec fn keep_running(cores: Seq<CoreView>) -> Seq<Option<usize>> {
    Seq::new(cores.len(), |i: int| cores[i].running_task)
}

fn keep_running_exec(cores: &[CoreView]) -> (desired: Vec<Option<usize>>)
    ensures
        desired@ == keep_running(cores@),
{
    let mut desired: Vec<Option<usize>> = Vec::new();
    let mut i: usize = 0;
    while i < cores.len()
        invariant
            i <= cores@.len(),
            desired@ == keep_running(cores@.take(i as int)),
        decreases cores@.len() - i,
    {
        desired.push(cores[i].running_task);
        i = i + 1;
        assert(desired@ =~= keep_running(cores@.take(i as int)));
    }
    assert(cores@.take(cores@.len() as int) =~= cores@);
    desired
}

/// The relaxation rule over a pool.
pub open spec fn relaxation_rule(pool: Seq<usize>, tasks: Seq<Task>, t: int) -> RankRule {
    RankRule::TieBand { band: relaxation_band(pool, tasks, t) as i128 }
}

/// theta of the hybrid algorithm without environment weighting (4.0).
pub const PROPOSED_THETA: i128 = 4_000_000;

/// The shared body of the two hybrid algorithms.
fn hybrid_schedule(
    ready_queue: &[usize],
    cores: &[CoreView],
    tasks: &[Task],
    current_time: i64,
    switch_cost: i64,
    theta_val: i128,
    lambda: Option<i64>,
) -> (desired: Vec<Option<usize>>)
    requires
        indices_below(ready_queue@, tasks@.len() as int),
        cores_below(cores@, tasks@.len() as int),
        0 <= theta_val <= 0x100_0000,
    ensures
        ({
            let pool = hybrid_pool(ready_queue@, cores@, tasks@, current_time as int);
            &&& pool.len() == 0 ==> desired@ == keep_running(cores@)
            &&& pool.len() > 0 ==> exists|ranked: Seq<usize>|
                is_ranking(ranked, pool,
                    |x: usize| relaxation_key(tasks@, current_time as int, pool, theta_val as int, lambda, x),
                    relaxation_rule(pool, tasks@, current_time as int))
                && desired@ == assignment(cores@, ranked,
                    PreemptTest::LaxityBelowRemaining { switch_cost }, tasks@, current_time as int)
        }),
        desired@.len() == cores@.len(),
        choices_below(desired@, tasks@.len() as int),
{
    let ready_candidates = collect_unlocked(ready_queue, cores);
    proof {
        lemma_unlocked_ready_props(ready_queue@, cores@);
        lemma_contained_below(ready_candidates@, ready_queue@, seq![], tasks@.len() as int);
    }
    // Proactive drop: filter out tasks locked in an unschedulable state
    let ready_candidates = keep_nonnegative_laxity(&ready_candidates, tasks, current_time);
    // Add existing running tasks to the pool
    let available_tasks = add_running_tasks(ready_candidates, cores);
    proof {
        lemma_hybrid_pool_props(ready_queue@, cores@, tasks@, current_time as int);
    }
    if available_tasks.len() == 0 {
        proof {
            assert forall|i: int| 0 <= i < cores@.len() implies (#[trigger] keep_running(cores@)[i] matches Some(x) ==> x < tasks@.len()) by {
                assert(keep_running(cores@)[i] == cores@[i].running_task);
            }
        }
        return keep_running_exec(cores);
    }
    // 1. Laxities normalized over the current pool, 2. R = theta * L_norm + P
    let (keys, band) = relaxation_keys(&available_tasks, tasks, current_time, theta_val, lambda);
    // 3. Sort using the lexicographic comparison rules
    let ghost pool = available_tasks@;
    let candidates = rank_by_keys(keys, RankRule::TieBand { band }, Ghost(pool),
        Ghost(|x: usize| relaxation_key(tasks@, current_time as int, pool, theta_val as int, lambda, x)));
    proof {
        lemma_contained_below(candidates@, available_tasks@, seq![], tasks@.len() as int);
    }
    // 4-6. Locked states, idle cores, gated preemptions
    assign_cores(candidates, cores, tasks, current_time, PreemptTest::LaxityBelowRemaining { switch_cost })
}

/// Ranking of a ready queue by the hybrid rules, after the proactive drop.
fn hybrid_rank(ready_queue: &[usize], tasks: &[Task], current_time: i64, theta_val: i128, lambda: Option<i64>)
    -> (ranked: Vec<usize>)
    requires
        indices_below(ready_queue@, tasks@.len() as int),
        ready_queue@.no_duplicates(),
        0 <= theta_val <= 0x100_0000,
    ensures
        ({
            let pool = nonnegative_laxity(ready_queue@, tasks@, current_time as int);
            &&& pool.len() == 0 ==> ranked@.len() == 0
            &&& pool.len() > 0 ==> is_ranking(ranked@, pool,
                    |x: usize| relaxation_key(tasks@, current_time as int, pool, theta_val as int, lambda, x),
                    relaxation_rule(pool, tasks@, current_time as int))
        }),
        ranked@.no_duplicates(),
        forall|x: usize| ranked@.contains(x) ==> ready_queue@.contains(x),
{
    let all = slice_to_vec(ready_queue);
    let pool = keep_nonnegative_laxity(&all, tasks, current_time);
    proof {
        lemma_nonnegative_laxity_props(ready_queue@, tasks@, current_time as int);
        lemma_contained_below(pool@, ready_queue@, seq![], tasks@.len() as int);
    }
    if pool.len() == 0 {
        return Vec::new();
    }
    let (keys, band) = relaxation_keys(&pool, tasks, current_time, theta_val, lambda);
    let ghost p = pool@;
    rank_by_keys(keys, RankRule::TieBand { band }, Ghost(p),
        Ghost(|x: usize| relaxation_key(tasks@, current_time as int, p, theta_val as int, lambda, x)))
}

// ==========================================
// 4. PROPOSED HYBRID ALGORITHM (RELAX)
// ==========================================
pub struct ProposedAlgorithm;

impl Scheduler for ProposedAlgorithm {
    open spec fn needs_cores(&self) -> bool {
        false
    }

    open spec fn rule(&self) -> RankingRule {
        |ready: Seq<usize>, tasks: Seq<Task>, t: int, config: SimConfig, ranked: Seq<usize>|
            relaxation_ranking(ready, tasks, t, PROPOSED_THETA as int, None, ranked)
    }

    fn schedule(
        &mut self,
        ready_queue: &[usize],
        cores: &[CoreView],
        tasks: &[Task],
        current_time: i64,
        config: &SimConfig,
    ) -> (desired: Vec<Option<usize>>)
        ensures
            relaxation_schedule(ready_queue@, cores@, tasks@, current_time as int, PROPOSED_THETA as int, None,
                config.context_switch_cost, desired@),
    {
        hybrid_schedule(ready_queue, cores, tasks, current_time, config.context_switch_cost, PROPOSED_THETA, None)
    }

    fn rank_tasks(&mut self, ready_queue: &[usize], tasks: &[Task], current_time: i64, config: &SimConfig)
        -> (ranked: Vec<usize>)
        ensures
            ({
                let pool = nonnegative_laxity(ready_queue@, tasks@, current_time as int);
                &&& pool.len() == 0 ==> ranked@.len() == 0
                &&& pool.len() > 0 ==> is_ranking(ranked@, pool,
                        |x: usize| relaxation_key(tasks@, current_time as int, pool, PROPOSED_THETA as int, None, x),
                        relaxation_rule(pool, tasks@, current_time as int))
            }),
    {
        hybrid_rank(ready_queue, tasks, current_time, PROPOSED_THETA, None)
    }
}

// ==========================================
// 5. PROPOSED HYBRID ALGORITHM (RELAX_ENV)
// ==========================================
pub struct EnvProposedAlgorithm;

impl Scheduler for EnvProposedAlgorithm {
    open spec fn needs_cores(&self) -> bool {
        false
    }

    open spec fn rule(&self) -> RankingRule {
        |ready: Seq<usize>, tasks: Seq<Task>, t: int, config: SimConfig, ranked: Seq<usize>|
            relaxation_ranking(ready, tasks, t, spec_theta(spec_lambda(config.weather)),
                Some(spec_lambda(config.weather) as i64), ranked)
    }

    fn schedule(
        &mut self,
        ready_queue: &[usize],
        cores: &[CoreView],
        tasks: &[Task],
        current_time: i64,
        config: &SimConfig,
    ) -> (desired: Vec<Option<usize>>)
        ensures
            relaxation_schedule(ready_queue@, cores@, tasks@, current_time as int,
                spec_theta(spec_lambda(config.weather)), Some(spec_lambda(config.weather) as i64),
                config.context_switch_cost, desired@),
    {
        let lambda = config.weather.lambda();
        let theta_val = theta(lambda);
        hybrid_schedule(ready_queue, cores, tasks, current_time, config.context_switch_cost, theta_val, Some(lambda))
    }

    fn rank_tasks(&mut self, ready_queue: &[usize], tasks: &[Task], current_time: i64, config: &SimConfig)
        -> (ranked: Vec<usize>)
        ensures
            ({
                let pool = nonnegative_laxity(ready_queue@, tasks@, current_time as int);
                let lambda = spec_lambda(config.weather) as i64;
                &&& pool.len() == 0 ==> ranked@.len() == 0
                &&& pool.len() > 0 ==> is_ranking(ranked@, pool,
                        |x: usize| relaxation_key(tasks@, current_time as int, pool, spec_theta(lambda as int), Some(lambda), x),
                        relaxation_rule(pool, tasks@, current_time as int))
            }),
    {
        let lambda = config.weather.lambda();
        let theta_val = theta(lambda);
        hybrid_rank(ready_queue, tasks, current_time, theta_val, Some(lambda))
    }
}

/// The first task of a `ByScore` ranking ranks before every task of the pool.
pub proof fn lemma_by_score_first_is_least(ranked: Seq<usize>, pool: Seq<usize>, key: spec_fn(usize) -> RankKey)
    requires
        is_ranking(ranked, pool, key, RankRule::ByScore),
        ranked.len() > 0,
    ensures
        forall|y: usize| pool.contains(y) ==> !ranks_after(RankRule::ByScore, key(ranked[0]), key(y)),
{
    let ks = ranked.map_values(key);
    assert forall|i: int| 0 <= i < ks.len() - 1 implies !ranks_after(RankRule::ByScore, #[trigger] ks[i], ks[i + 1]) by {
        assert(ks[i] == key(ranked[i]));
        assert(ks[i + 1] == key(ranked[i + 1]));
    }
    lemma_by_score_locally_sorted_is_sorted(ks);
    assert forall|y: usize| pool.contains(y) implies !ranks_after(RankRule::ByScore, key(ranked[0]), key(y)) by {
        assert(ranked.contains(y));
        let j = choose|j: int| 0 <= j < ranked.len() && ranked[j] == y;
        if j > 0 {
            assert(ks[0] == key(ranked[0]));
            assert(ks[j] == key(ranked[j]));
        }
    }
}

/// A ranking by `ByScore` with keys that name their own task is unique:
/// the task index as tie-breaker makes the order deterministic.
pub proof fn lemma_by_score_ranking_unique(r1: Seq<usize>, r2: Seq<usize>, pool: Seq<usize>, key: spec_fn(usize) -> RankKey)
    requires
        is_ranking(r1, pool, key, RankRule::ByScore),
        is_ranking(r2, pool, key, RankRule::ByScore),
        pool.no_duplicates(),
        forall|x: usize| pool.contains(x) ==> (#[trigger] key(x)).idx == x,
    ensures
        r1 == r2,
    decreases r1.len(),
{
    if r1.len() > 0 {
        lemma_by_score_first_is_least(r1, pool, key);
        lemma_by_score_first_is_least(r2, pool, key);
        let a = r1[0];
        let b = r2[0];
        assert(r1.contains(a));
        assert(r2.contains(b));
        assert(pool.contains(a) && pool.contains(b));
        assert(!ranks_after(RankRule::ByScore, key(a), key(b)));
        assert(!ranks_after(RankRule::ByScore, key(b), key(a)));
        assert(a == b);
        let t1 = r1.drop_first();
        let t2 = r2.drop_first();
        let rest = without(pool, a);
        lemma_without_props(pool, a);
        lemma_ranking_tail(r1, pool, key);
        lemma_ranking_tail(r2, pool, key);
        lemma_by_score_ranking_unique(t1, t2, rest, key);
        assert(r1 =~= seq![a] + t1);
        assert(r2 =~= seq![b] + t2);
    }
}

/// Dropping the first task of a ranking ranks the rest of the pool.
proof fn lemma_ranking_tail(r: Seq<usize>, pool: Seq<usize>, key: spec_fn(usize) -> RankKey)
    requires
        is_ranking(r, pool, key, RankRule::ByScore),
        pool.no_duplicates(),
        r.len() > 0,
    ensures
        is_ranking(r.drop_first(), without(pool, r[0]), key, RankRule::ByScore),
{
    let t = r.drop_first();
    let x = r[0];
    lemma_without_props(pool, x);
    assert(pool.contains(x)) by {
        assert(r.contains(x));
    }
    assert forall|y: usize| t.contains(y) <==> without(pool, x).contains(y) by {
        if t.contains(y) {
            let q = choose|q: int| 0 <= q < t.len() && t[q] == y;
            assert(r[q + 1] == y);
            assert(r.contains(y));
            assert(r[0] != r[q + 1]);
        }
        if without(pool, x).contains(y) {
            assert(r.contains(y));
            let q = choose|q: int| 0 <= q < r.len() && r[q] == y;
            assert(q != 0);
            assert(t[q - 1] == y);
        }
    }
    assert(t.no_duplicates()) by {
        assert forall|i: int, j: int| 0 <= i < t.len() && 0 <= j < t.len() && i != j implies t[i] != t[j] by {
            assert(t[i] == r[i + 1] && t[j] == r[j + 1]);
        }
    }
    // both list each task of their pools once, so the lengths agree
    lemma_no_dups_same_elements_len(t, without(pool, x));
    assert forall|i: int| 0 <= i < t.len() - 1 implies !ranks_after(RankRule::ByScore, key(#[trigger] t[i]), key(t[i + 1])) by {
        assert(t[i] == r[i + 1] && t[i + 1] == r[i + 2]);
    }
}

/// Two duplicate-free sequences with the same elements have the same length.
pub proof fn lemma_no_dups_same_elements_len(a: Seq<usize>, b: Seq<usize>)
    requires
        a.no_duplicates(),
        b.no_duplicates(),
        forall|y: usize| a.contains(y) <==> b.contains(y),
    ensures
        a.len() == b.len(),
{
    a.unique_seq_to_set();
    b.unique_seq_to_set();
    assert(a.to_set() =~= b.to_set());
}

// ==========================================
// 2. PARTITIONED EDF SCHEDULER
// ==========================================
pub struct PartitionedEdf {
    /// Maps task_idx -> core_idx
    task_to_core: HashMap<usize, usize>,
    next_core_to_assign: usize,
}

impl PartitionedEdf {
    /// The core each arrived task is bound to.
    pub closed spec fn assigned_cores(&self) -> Map<usize, usize> {
        self.task_to_core@
    }

    /// The core the next arriving task will be bound to.
    pub closed spec fn next_core(&self) -> usize {
        self.next_core_to_assign
    }
}

impl Default for PartitionedEdf {
    fn default() -> (s: Self)
        ensures
            s.assigned_cores() == Map::<usize, usize>::empty(),
            s.next_core() == 0,
    {
        PartitionedEdf { task_to_core: HashMap::new(), next_core_to_assign: 0 }
    }
}

/// Round-robin binding: starting from a fresh scheduler, the `k`-th task
/// to arrive (counting from 0) is bound to core `k mod n`, and after `k`
/// arrivals the next task will go to core `k mod n`. `states[k]` is the
/// scheduler before the `k`-th call of `on_task_arrival`, which hands it
/// `arrived[k]`; the step between them is what that call ensures.
pub proof fn lemma_round_robin_binding(states: Seq<PartitionedEdf>, arrived: Seq<usize>, n: int)
    requires
        n > 0,
        states.len() == arrived.len() + 1,
        states[0].next_core() == 0,
        forall|k: int| 0 <= k < arrived.len() ==> (#[trigger] states[k + 1]).assigned_cores()
            == states[k].assigned_cores().insert(arrived[k], states[k].next_core()),
        forall|k: int| 0 <= k < arrived.len() ==> (#[trigger] states[k + 1]).next_core()
            == (states[k].next_core() + 1) % n,
    ensures
        forall|k: int| 0 <= k <= arrived.len() ==> (#[trigger] states[k]).next_core() == k % n,
        forall|k: int| 0 <= k < arrived.len() ==> (#[trigger] states[k + 1]).assigned_cores()[arrived[k]] == k % n,
    decreases arrived.len(),
{
    if arrived.len() > 0 {
        let m = arrived.len() - 1;
        let st = states.drop_last();
        let ar = arrived.drop_last();
        assert forall|k: int| 0 <= k < ar.len() implies (#[trigger] st[k + 1]).assigned_cores()
            == st[k].assigned_cores().insert(ar[k], st[k].next_core()) by {
            assert(st[k + 1] == states[k + 1]);
        }
        assert forall|k: int| 0 <= k < ar.len() implies (#[trigger] st[k + 1]).next_core()
            == (st[k].next_core() + 1) % n by {
            assert(st[k + 1] == states[k + 1]);
        }
        lemma_round_robin_binding(st, ar, n);
        assert(states[m] == st[m]);
        assert(states[m].next_core() == m % n);
        assert(states[m + 1].next_core() == (m + 1) % n) by {
            vstd::arithmetic::div_mod::lemma_add_mod_noop_right(1, m, n);
            assert(1 + m % n == m % n + 1);
        }
        assert forall|k: int| 0 <= k <= arrived.len() implies (#[trigger] states[k]).next_core() == k % n by {
            if k <= m {
                assert(states[k] == st[k]);
            }
        }
        assert forall|k: int| 0 <= k < arrived.len() implies (#[trigger] states[k + 1]).assigned_cores()[arrived[k]]
            == k % n by {
            if k < m {
                assert(states[k + 1] == st[k + 1]);
                assert(arrived[k] == ar[k]);
            } else {
                assert(states[k].next_core() == k % n);
            }
        }
    } else {
        vstd::arithmetic::div_mod::lemma_small_mod(0, n as nat);
    }
}

/// The ready tasks bound to core `c`, in queue order.
pub open spec fn partition_pool(ready: Seq<usize>, m: Map<usize, usize>, c: usize) -> Seq<usize>
    decreases ready.len(),
{
    if ready.len() == 0 {
        ready
    } else {
        let rest = partition_pool(ready.drop_last(), m, c);
        let x = ready.last();
        if m.contains_key(x) && m[x] == c && !rest.contains(x) { rest.push(x) } else { rest }
    }
}

pub proof fn lemma_partition_pool_props(ready: Seq<usize>, m: Map<usize, usize>, c: usize)
    ensures
        forall|x: usize| partition_pool(ready, m, c).contains(x)
            <==> ready.contains(x) && m.contains_key(x) && m[x] == c,
        partition_pool(ready, m, c).no_duplicates(),
        ready.no_duplicates() ==> partition_pool(ready, m, c).no_duplicates(),
    decreases ready.len(),
{
    if ready.len() > 0 {
        let pre = ready.drop_last();
        lemma_partition_pool_props(pre, m, c);
        lemma_drop_last_contains(ready);
        lemma_push_contains(partition_pool(pre, m, c), ready.last());
        assert forall|x: usize| partition_pool(ready, m, c).contains(x)
            <==> ready.contains(x) && m.contains_key(x) && m[x] == c by {
            let last = ready.last();
            let rest = partition_pool(pre, m, c);
            assert(ready.contains(x) <==> pre.contains(x) || x == last);
            assert(rest.contains(x) <==> pre.contains(x) && m.contains_key(x) && m[x] == c);
            if m.contains_key(last) && m[last] == c && !rest.contains(last) {
                assert(partition_pool(ready, m, c) == rest.push(last));
                assert(rest.push(last).contains(x) <==> rest.contains(x) || x == last);
            } else {
                assert(partition_pool(ready, m, c) == rest);
            }
        }
        let x = ready.last();
        if m.contains_key(x) && m[x] == c && !partition_pool(pre, m, c).contains(x) {
            lemma_push_no_dups(partition_pool(pre, m, c), x);
        }
    }
}

/// What a partitioned core should run: its own task while switching,
/// otherwise the earliest-deadline ready task bound to it, if any.
pub open spec fn partitioned_choice(
    choice: Option<usize>,
    core: CoreView,
    ready: Seq<usize>,
    m: Map<usize, usize>,
    c: usize,
    tasks: Seq<Task>,
) -> bool {
    if core.is_switching {
        choice == core.running_task
    } else {
        let pool = partition_pool(ready, m, c);
        &&& choice is None <==> pool.len() == 0
        &&& choice matches Some(x) ==> pool.contains(x) && forall|y: usize| pool.contains(y)
            ==> !ranks_after(RankRule::ByScore, edf_key(tasks, x), edf_key(tasks, y))
    }
}

/// What a partitioned core runs: while switching, its own task; otherwise a
/// ready task bound to it with the earliest deadline among the ready tasks
/// bound to it, and nothing only when no ready task is bound to it.
pub proof fn lemma_partitioned_choice_earliest_bound(
    choice: Option<usize>,
    core: CoreView,
    ready: Seq<usize>,
    m: Map<usize, usize>,
    c: usize,
    tasks: Seq<Task>,
)
    requires
        partitioned_choice(choice, core, ready, m, c, tasks),
    ensures
        core.is_switching ==> choice == core.running_task,
        !core.is_switching ==> (choice is None <==> forall|y: usize| ready.contains(y) ==> !(m.contains_key(y) && m[y] == c)),
        !core.is_switching && choice is Some ==> ({
            let x = choice->0;
            &&& ready.contains(x) && m.contains_key(x) && m[x] == c
            &&& forall|y: usize| ready.contains(y) && m.contains_key(y) && m[y] == c
                    ==> tasks[x as int].deadline <= tasks[y as int].deadline
        }),
{
    lemma_partition_pool_props(ready, m, c);
    if !core.is_switching {
        let pool = partition_pool(ready, m, c);
        if pool.len() > 0 {
            assert(pool.contains(pool[0]));
            assert(ready.contains(pool[0]) && m.contains_key(pool[0]) && m[pool[0]] == c);
        } else {
            assert forall|y: usize| ready.contains(y) implies !(m.contains_key(y) && m[y] == c) by {
                if m.contains_key(y) && m[y] == c {
                    assert(pool.contains(y));
                }
            }
        }
        if let Some(x) = choice {
            assert(pool.contains(x));
            assert forall|y: usize| ready.contains(y) && m.contains_key(y) && m[y] == c
                implies tasks[x as int].deadline <= tasks[y as int].deadline by {
                assert(pool.contains(y));
                assert(!ranks_after(RankRule::ByScore, edf_key(tasks, x), edf_key(tasks, y)));
            }
        }
    }
}

impl PartitionedEdf {
    /// The ready tasks bound to a core.
    fn core_tasks(&self, ready_queue: &[usize], core_idx: usize) -> (r: Vec<usize>)
        ensures
            r@ == partition_pool(ready_queue@, self.assigned_cores(), core_idx),
    {
        broadcast use vstd::std_specs::hash::group_hash_axioms;
        let mut out: Vec<usize> = Vec::new();
        let mut i: usize = 0;
        while i < ready_queue.len()
            invariant
                i <= ready_queue@.len(),
                out@ == partition_pool(ready_queue@.take(i as int), self.task_to_core@, core_idx),
            decreases ready_queue@.len() - i,
        {
            let x = ready_queue[i];
            assert(ready_queue@.take(i as int + 1).drop_last() =~= ready_queue@.take(i as int));
            let bound = match self.task_to_core.get(&x) {
                Some(c) => *c == core_idx,
                None => false,
            };
            if bound && !vec_contains(&out, x) {
                out.push(x);
            }
            i = i + 1;
        }
        assert(ready_queue@.take(ready_queue@.len() as int) =~= ready_queue@);
        out
    }
}

impl Scheduler for PartitionedEdf {
    open spec fn needs_cores(&self) -> bool {
        true
    }

    open spec fn rule(&self) -> RankingRule {
        |ready: Seq<usize>, tasks: Seq<Task>, t: int, config: SimConfig, ranked: Seq<usize>|
            edf_ranking(ready, tasks, ranked)
    }

    fn on_task_arrival(&mut self, task_idx: usize, tasks: &[Task], config: &SimConfig)
        ensures
            final(self).assigned_cores() == old(self).assigned_cores().insert(task_idx, old(self).next_core()),
            final(self).next_core() == (old(self).next_core() + 1) % (config.num_cores as int),
    {
        broadcast use vstd::std_specs::hash::group_hash_axioms;
        // Simple Round-Robin bin-packing.
        self.task_to_core.insert(task_idx, self.next_core_to_assign);
        let n = config.num_cores;
        proof {
            let a = self.next_core_to_assign as int;
            vstd::arithmetic::div_mod::lemma_mod_bound(a, n as int);
            vstd::arithmetic::div_mod::lemma_add_mod_noop_right(1, a, n as int);
            assert((a % (n as int)) + 1 == 1 + (a % (n as int)));
        }
        self.next_core_to_assign = (self.next_core_to_assign % n + 1) % n;
    }

    fn schedule(
        &mut self,
        ready_queue: &[usize],
        cores: &[CoreView],
        tasks: &[Task],
        current_time: i64,
        config: &SimConfig,
    ) -> (desired: Vec<Option<usize>>)
        ensures
            forall|i: int| 0 <= i < cores@.len() ==> partitioned_choice(#[trigger] desired@[i], cores@[i],
                ready_queue@, old(self).assigned_cores(), i as usize, tasks@),
    {
        let n = cores.len();
        let mut desired: Vec<Option<usize>> = vec![None; n];
        let mut core_idx: usize = 0;
        while core_idx < n
            invariant
                core_idx <= n == cores@.len(),
                desired@.len() == n,
                indices_below(ready_queue@, tasks@.len() as int),
                cores_below(cores@, tasks@.len() as int),
                choices_below(desired@, tasks@.len() as int),
                forall|i: int| 0 <= i < core_idx ==> partitioned_choice(#[trigger] desired@[i], cores@[i],
                    ready_queue@, self.assigned_cores(), i as usize, tasks@),
            decreases n - core_idx,
        {
            if cores[core_idx].is_switching {
                desired.set(core_idx, cores[core_idx].running_task);
            } else {
                // 1. Only the ready tasks partitioned to this specific core
                let core_tasks = self.core_tasks(ready_queue, core_idx);
                proof {
                    lemma_partition_pool_props(ready_queue@, self.assigned_cores(), core_idx);
                    lemma_contained_below(core_tasks@, ready_queue@, seq![], tasks@.len() as int);
                }
                // 2. Sort by deadline with deterministic tie-breaker
                let keys = edf_keys(&core_tasks, tasks);
                let ranked = rank_by_keys(keys, RankRule::ByScore, Ghost(core_tasks@), Ghost(|x: usize| edf_key(tasks@, x)));
                // 3. Pick the single best task for this core
                if ranked.len() > 0 {
                    proof {
                        lemma_by_score_first_is_least(ranked@, core_tasks@, |x: usize| edf_key(tasks@, x));
                        assert(ranked@.contains(ranked@[0]));
                    }
                    desired.set(core_idx, Some(ranked[0]));
                } else {
                    proof {
                        if core_tasks@.len() > 0 {
                            assert(core_tasks@.contains(core_tasks@[0]));
                        }
                    }
                    desired.set(core_idx, None);
                }
            }
            core_idx = core_idx + 1;
        }
        desired
    }

    fn rank_tasks(&mut self, ready_queue: &[usize], tasks: &[Task], current_time: i64, config: &SimConfig)
        -> (ranked: Vec<usize>)
        ensures
            is_ranking(ranked@, ready_queue@, |x: usize| edf_key(tasks@, x), RankRule::ByScore),
    {
        let pool = slice_to_vec(ready_queue);
        let keys = edf_keys(&pool, tasks);
        rank_by_keys(keys, RankRule::ByScore, Ghost(pool@), Ghost(|x: usize| edf_key(tasks@, x)))
    }
}

// ==========================================
// 6. RUNTIME SCHEDULER SELECTION
// ==========================================
#[derive(Debug, Clone, Copy, PartialEq, Eq, Structural)]
pub enum SchedulerKind {
    GlobalEdf,
    PartitionedEdf,
    Mllf,
    Proposed,
    EnvProposed,
}

/// A scheduler name as `parse` reads it: ASCII lowercase, with `_` and
/// spaces turned into `-`.
pub open spec fn normalized_name_char(c: char) -> char {
    let l = ascii_lower(c);
    if l == '_' || l == ' ' { '-' } else { l }
}

pub open spec fn normalized_name(s: Seq<char>) -> Seq<char> {
    s.map_values(|c: char| normalized_name_char(c))
}

/// The scheduler a normalized name stands for.
pub open spec fn kind_named(n: Seq<char>) -> Option<SchedulerKind> {
    if n == "global-edf"@ || n == "globaledf"@ || n == "edf"@ || n == "edf-global"@ {
        Some(SchedulerKind::GlobalEdf)
    } else if n == "partitioned-edf"@ || n == "partitionededf"@ {
        Some(SchedulerKind::PartitionedEdf)
    } else if n == "mllf"@ {
        Some(SchedulerKind::Mllf)
    } else if n == "relaxation"@ || n == "proposed"@ || n == "hybrid"@ {
        Some(SchedulerKind::Proposed)
    } else if n == "env-proposed"@ || n == "env"@ || n == "extended-relaxation"@ {
        Some(SchedulerKind::EnvProposed)
    } else {
        None
    }
}

/// The canonical name of a scheduler.
pub open spec fn kind_name(k: SchedulerKind) -> Seq<char> {
    match k {
        SchedulerKind::GlobalEdf => "global-edf"@,
        SchedulerKind::PartitionedEdf => "partitioned-edf"@,
        SchedulerKind::Mllf => "mllf"@,
        SchedulerKind::Proposed => "proposed"@,
        SchedulerKind::EnvProposed => "env-proposed"@,
    }
}

/// The error for a name that names no scheduler.
pub open spec fn unknown_scheduler_message(n: Seq<char>) -> Seq<char> {
    "unknown scheduler '"@ + n + "' (expected one of: global-edf, partitioned-edf, mllf, proposed, env-proposed)"@
}

/// The canonical name of every scheduler parses back to it.
pub proof fn lemma_kind_name_round_trip(k: SchedulerKind)
    ensures
        kind_named(normalized_name(kind_name(k))) == Some(k),
{
    reveal_strlit("global-edf");
    reveal_strlit("globaledf");
    reveal_strlit("edf");
    reveal_strlit("edf-global");
    reveal_strlit("partitioned-edf");
    reveal_strlit("partitionededf");
    reveal_strlit("mllf");
    reveal_strlit("relaxation");
    reveal_strlit("proposed");
    reveal_strlit("hybrid");
    reveal_strlit("env-proposed");
    reveal_strlit("env");
    reveal_strlit("extended-relaxation");
    let n = kind_name(k);
    assert(normalized_name(n) =~= n);
}

fn normalize_name(s: &str) -> (r: String)
    ensures
        r@ == normalized_name(s@),
{
    let n = s.unicode_len();
    let mut out = String::new();
    let mut i: usize = 0;
    while i < n
        invariant
            i <= n == s@.len(),
            out@ == normalized_name(s@.take(i as int)),
        decreases n - i,
    {
        let l = lower_char(s.get_char(i));
        let c = if l == '_' || l == ' ' { '-' } else { l };
        push_char(&mut out, c);
        i = i + 1;
        assert(out@ =~= normalized_name(s@.take(i as int)));
    }
    assert(s@.take(n as int) =~= s@);
    out
}

/// Whether a string holds exactly the given text.
fn text_is(s: &String, lit: &str) -> (r: bool)
    ensures
        r == (s@ == lit@),
{
    let other = String::from_str(lit);
    *s == other
}

/// Every scheduler a simulation can run, whichever was chosen at runtime.
pub enum BuiltScheduler {
    GlobalEdf(GlobalEdf),
    PartitionedEdf(PartitionedEdf),
    Mllf(Mllf),
    Proposed(ProposedAlgorithm),
    EnvProposed(EnvProposedAlgorithm),
}

impl Scheduler for BuiltScheduler {
    open spec fn needs_cores(&self) -> bool {
        self is PartitionedEdf
    }

    open spec fn rule(&self) -> RankingRule {
        match self {
            BuiltScheduler::GlobalEdf(s) => s.rule(),
            BuiltScheduler::PartitionedEdf(s) => s.rule(),
            BuiltScheduler::Mllf(s) => s.rule(),
            BuiltScheduler::Proposed(s) => s.rule(),
            BuiltScheduler::EnvProposed(s) => s.rule(),
        }
    }

    fn on_task_arrival(&mut self, task_idx: usize, tasks: &[Task], config: &SimConfig)
        ensures
            *old(self) matches BuiltScheduler::PartitionedEdf(p) ==> (*final(self) matches BuiltScheduler::PartitionedEdf(q)
                && q.assigned_cores() == p.assigned_cores().insert(task_idx, p.next_core())
                && q.next_core() == (p.next_core() + 1) % (config.num_cores as int)),
            !(*old(self) is PartitionedEdf) ==> *final(self) == *old(self),
    {
        match self {
            BuiltScheduler::PartitionedEdf(s) => s.on_task_arrival(task_idx, tasks, config),
            _ => {},
        }
    }

    fn schedule(
        &mut self,
        ready_queue: &[usize],
        cores: &[CoreView],
        tasks: &[Task],
        current_time: i64,
        config: &SimConfig,
    ) -> (desired: Vec<Option<usize>>)
        ensures
            *old(self) is GlobalEdf ==> edf_schedule(ready_queue@, cores@, tasks@, current_time as int, desired@),
            *old(self) matches BuiltScheduler::PartitionedEdf(p) ==> forall|i: int| 0 <= i < cores@.len() ==>
                partitioned_choice(#[trigger] desired@[i], cores@[i], ready_queue@, p.assigned_cores(), i as usize, tasks@),
            *old(self) is Mllf ==> mllf_schedule(ready_queue@, cores@, tasks@, current_time as int, desired@),
            *old(self) is Proposed ==> relaxation_schedule(ready_queue@, cores@, tasks@, current_time as int,
                PROPOSED_THETA as int, None, config.context_switch_cost, desired@),
            *old(self) is EnvProposed ==> relaxation_schedule(ready_queue@, cores@, tasks@, current_time as int,
                spec_theta(spec_lambda(config.weather)), Some(spec_lambda(config.weather) as i64),
                config.context_switch_cost, desired@),
    {
        match self {
            BuiltScheduler::GlobalEdf(s) => s.schedule(ready_queue, cores, tasks, current_time, config),
            BuiltScheduler::PartitionedEdf(s) => s.schedule(ready_queue, cores, tasks, current_time, config),
            BuiltScheduler::Mllf(s) => s.schedule(ready_queue, cores, tasks, current_time, config),
            BuiltScheduler::Proposed(s) => s.schedule(ready_queue, cores, tasks, current_time, config),
            BuiltScheduler::EnvProposed(s) => s.schedule(ready_queue, cores, tasks, current_time, config),
        }
    }

    fn rank_tasks(&mut self, ready_queue: &[usize], tasks: &[Task], current_time: i64, config: &SimConfig)
        -> (ranked: Vec<usize>)
        ensures
            *old(self) is GlobalEdf || *old(self) is PartitionedEdf ==> edf_ranking(ready_queue@, tasks@, ranked@),
            *old(self) is Mllf ==> laxity_ranking(ready_queue@, tasks@, current_time as int, ranked@),
            *old(self) is Proposed ==> relaxation_ranking(ready_queue@, tasks@, current_time as int,
                PROPOSED_THETA as int, None, ranked@),
            *old(self) is EnvProposed ==> relaxation_ranking(ready_queue@, tasks@, current_time as int,
                spec_theta(spec_lambda(config.weather)), Some(spec_lambda(config.weather) as i64), ranked@),
    {
        match self {
            BuiltScheduler::GlobalEdf(s) => s.rank_tasks(ready_queue, tasks, current_time, config),
            BuiltScheduler::PartitionedEdf(s) => s.rank_tasks(ready_queue, tasks, current_time, config),
            BuiltScheduler::Mllf(s) => s.rank_tasks(ready_queue, tasks, current_time, config),
            BuiltScheduler::Proposed(s) => s.rank_tasks(ready_queue, tasks, current_time, config),
            BuiltScheduler::EnvProposed(s) => s.rank_tasks(ready_queue, tasks, current_time, config),
        }
    }
}

impl SchedulerKind {
    pub fn parse(s: &str) -> (r: Result<Self, String>)
        ensures
            kind_named(normalized_name(s@)) matches Some(k) ==> r == Ok::<SchedulerKind, String>(k),
            kind_named(normalized_name(s@)) is None ==> (r matches Err(e)
                && e@ == unknown_scheduler_message(normalized_name(s@))),
    {
        let name = normalize_name(s);
        if text_is(&name, "global-edf") || text_is(&name, "globaledf") || text_is(&name, "edf")
            || text_is(&name, "edf-global") {
            Ok(SchedulerKind::GlobalEdf)
        } else if text_is(&name, "partitioned-edf") || text_is(&name, "partitionededf") {
            Ok(SchedulerKind::PartitionedEdf)
        } else if text_is(&name, "mllf") {
            Ok(SchedulerKind::Mllf)
        } else if text_is(&name, "relaxation") || text_is(&name, "proposed") || text_is(&name, "hybrid") {
            Ok(SchedulerKind::Proposed)
        } else if text_is(&name, "env-proposed") || text_is(&name, "env") || text_is(&name, "extended-relaxation") {
            Ok(SchedulerKind::EnvProposed)
        } else {
            let mut msg = String::from_str("unknown scheduler '");
            msg.append(name.as_str());
            msg.append("' (expected one of: global-edf, partitioned-edf, mllf, proposed, env-proposed)");
            Err(msg)
        }
    }

    pub fn build(self) -> (s: BuiltScheduler)
        ensures
            self == SchedulerKind::GlobalEdf ==> s is GlobalEdf,
            self == SchedulerKind::PartitionedEdf ==> (s matches BuiltScheduler::PartitionedEdf(p)
                && p.assigned_cores() == Map::<usize, usize>::empty() && p.next_core() == 0),
            self == SchedulerKind::Mllf ==> s is Mllf,
            self == SchedulerKind::Proposed ==> s is Proposed,
            self == SchedulerKind::EnvProposed ==> s is EnvProposed,
    {
        match self {
            SchedulerKind::GlobalEdf => BuiltScheduler::GlobalEdf(GlobalEdf),
            SchedulerKind::PartitionedEdf => BuiltScheduler::PartitionedEdf(PartitionedEdf::default()),
            SchedulerKind::Mllf => BuiltScheduler::Mllf(Mllf),
            SchedulerKind::Proposed => BuiltScheduler::Proposed(ProposedAlgorithm),
            SchedulerKind::EnvProposed => BuiltScheduler::EnvProposed(EnvProposedAlgorithm),
        }
    }

    pub fn as_str(self) -> (s: &'static str)
        ensures
            s@ == kind_name(self),
    {
        match self {
            SchedulerKind::GlobalEdf => "global-edf",
            SchedulerKind::PartitionedEdf => "partitioned-edf",
            SchedulerKind::Mllf => "mllf",
            SchedulerKind::Proposed => "proposed",
            SchedulerKind::EnvProposed => "env-proposed",
        }
    }

    /// Every scheduler kind.
    pub fn all_kinds() -> (ks: [SchedulerKind; 5])
        ensures
            ks@ == seq![SchedulerKind::GlobalEdf, SchedulerKind::PartitionedEdf, SchedulerKind::Mllf,
                SchedulerKind::Proposed, SchedulerKind::EnvProposed],
    {
        [
            SchedulerKind::GlobalEdf,
            SchedulerKind::PartitionedEdf,
            SchedulerKind::Mllf,
            SchedulerKind::Proposed,
            SchedulerKind::EnvProposed,
        ]
    }
}

impl Default for SchedulerKind {
    fn default() -> (k: Self)
        ensures
            k == SchedulerKind::Proposed,
    {
        SchedulerKind::Proposed
    }
}

} // verus!
