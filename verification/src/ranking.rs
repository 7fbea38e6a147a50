//! Ranking of candidate tasks: the comparison rules the schedulers sort by,
//! and a stable insertion sort over them.

use vstd::prelude::*;

verus! {

/// Half a tick: two times to collision closer than this are treated as equal.
pub const TTC_MARGIN: i128 = 500_000;

/// What a candidate task is ranked by.
#[derive(Debug, Clone, Copy, PartialEq, Eq, Structural)]
pub struct RankKey {
    /// Index of the task in the task table.
    pub idx: usize,
    /// Primary score (deadline, laxity or scaled relaxation); lower is more urgent.
    pub score: i128,
    /// Time to collision of the task (deadline minus arrival).
    pub ttc: i128,
}

/// How two ranking keys compare.
#[derive(Debug, Clone, Copy, PartialEq, Eq, Structural)]
pub enum RankRule {
    /// Lowest score first, task index as tie-breaker.
    ByScore,
    /// Scores within `band` of each other are treated as equivalent and
    /// ordered by time to collision (when it differs by more than
    /// `TTC_MARGIN`), then by score, then by task index.
    TieBand { band: i128 },
}

/// Whether `a` is ranked strictly after `b` (the comparison says "greater").
pub open spec fn ranks_after(rule: RankRule, a: RankKey, b: RankKey) -> bool {
    match rule {
        RankRule::ByScore => a.score > b.score || (a.score == b.score && a.idx > b.idx),
        RankRule::TieBand { band } => {
            if -band <= a.score - b.score <= band {
                if b.ttc - a.ttc > TTC_MARGIN {
                    false
                } else if a.ttc - b.ttc > TTC_MARGIN {
                    true
                } else if a.score != b.score {
                    a.score > b.score
                } else {
                    a.idx > b.idx
                }
            } else {
                a.score >= b.score
            }
        },
    }
}

/// Magnitude bound keeping key differences within `i128`.
pub open spec fn key_in_range(k: RankKey) -> bool {
    -0x1000_0000_0000_0000_0000_0000_0000_0000int <= k.score <= 0x1000_0000_0000_0000_0000_0000_0000_0000int
        && -0x1000_0000_0000_0000_0000_0000_0000_0000int <= k.ttc <= 0x1000_0000_0000_0000_0000_0000_0000_0000int
}

pub open spec fn rule_valid(rule: RankRule) -> bool {
    match rule {
        RankRule::ByScore => true,
        RankRule::TieBand { band } => 0 <= band <= 0x1000_0000_0000_0000_0000_0000_0000_0000int,
    }
}

/// Keys of distinct tasks never rank after each other both ways.
pub proof fn lemma_ranks_after_antisymmetric(rule: RankRule, a: RankKey, b: RankKey)
    requires
        rule_valid(rule),
        a.idx != b.idx,
        ranks_after(rule, a, b),
    ensures
        !ranks_after(rule, b, a),
{
}

/// Under `ByScore`, ranking is transitive.
pub proof fn lemma_by_score_transitive(a: RankKey, b: RankKey, c: RankKey)
    requires
        !ranks_after(RankRule::ByScore, a, b),
        !ranks_after(RankRule::ByScore, b, c),
    ensures
        !ranks_after(RankRule::ByScore, a, c),
{
}

pub fn ranks_after_exec(rule: RankRule, a: &RankKey, b: &RankKey) -> (r: bool)
    requires
        rule_valid(rule),
        key_in_range(*a),
        key_in_range(*b),
    ensures
        r == ranks_after(rule, *a, *b),
{
    match rule {
        RankRule::ByScore => a.score > b.score || (a.score == b.score && a.idx > b.idx),
        RankRule::TieBand { band } => {
            let diff = a.score - b.score;
            if -band <= diff && diff <= band {
                if b.ttc - a.ttc > TTC_MARGIN {
                    false
                } else if a.ttc - b.ttc > TTC_MARGIN {
                    true
                } else if a.score != b.score {
                    a.score > b.score
                } else {
                    a.idx > b.idx
                }
            } else {
                a.score >= b.score
            }
        },
    }
}

/// No two keys belong to the same task.
pub open spec fn distinct_tasks(s: Seq<RankKey>) -> bool {
    forall|i: int, j: int| 0 <= i < j < s.len() ==> s[i].idx != s[j].idx
}

/// Every neighbouring pair is in order.
pub open spec fn locally_sorted(rule: RankRule, s: Seq<RankKey>) -> bool {
    forall|i: int| 0 <= i < s.len() - 1 ==> !ranks_after(rule, #[trigger] s[i], s[i + 1])
}

/// Every pair is in order.
pub open spec fn fully_sorted(rule: RankRule, s: Seq<RankKey>) -> bool {
    forall|i: int, j: int| 0 <= i < j < s.len() ==> !ranks_after(rule, s[i], s[j])
}

/// `out` holds exactly the keys of `input`, each once.
pub open spec fn same_keys(out: Seq<RankKey>, input: Seq<RankKey>) -> bool {
    &&& out.len() == input.len()
    &&& forall|k: RankKey| out.contains(k) <==> input.contains(k)
}

/// Under `ByScore` a locally sorted sequence is sorted.
pub proof fn lemma_by_score_locally_sorted_is_sorted(s: Seq<RankKey>)
    requires
        locally_sorted(RankRule::ByScore, s),
    ensures
        fully_sorted(RankRule::ByScore, s),
{
    assert forall|i: int, j: int| 0 <= i < j < s.len() implies !ranks_after(RankRule::ByScore, s[i], s[j]) by {
        lemma_by_score_chain(s, i, j);
    }
}

proof fn lemma_by_score_chain(s: Seq<RankKey>, i: int, j: int)
    requires
        locally_sorted(RankRule::ByScore, s),
        0 <= i < j < s.len(),
    ensures
        !ranks_after(RankRule::ByScore, s[i], s[j]),
    decreases j - i,
{
    if j > i + 1 {
        lemma_by_score_chain(s, i, j - 1);
        assert(!ranks_after(RankRule::ByScore, s[j - 1], s[j]));
        lemma_by_score_transitive(s[i], s[j - 1], s[j]);
    }
}

proof fn lemma_insert_same_keys(old_out: Seq<RankKey>, pre: Seq<RankKey>, x: RankKey, j: int)
    requires
        0 <= j <= old_out.len(),
        same_keys(old_out, pre),
    ensures
        same_keys(old_out.insert(j, x), pre.push(x)),
{
    let new_out = old_out.insert(j, x);
    let post = pre.push(x);
    assert forall|k: RankKey| new_out.contains(k) implies post.contains(k) by {
        let p = choose|p: int| 0 <= p < new_out.len() && new_out[p] == k;
        if p < j {
            assert(old_out[p] == k);
            assert(old_out.contains(k));
        } else if p > j {
            assert(old_out[p - 1] == k);
            assert(old_out.contains(k));
        }
        if k != x {
            assert(pre.contains(k));
            let q = choose|q: int| 0 <= q < pre.len() && pre[q] == k;
            assert(post[q] == k);
        } else {
            assert(post[pre.len() as int] == x);
        }
    }
    assert forall|k: RankKey| post.contains(k) implies new_out.contains(k) by {
        let q = choose|q: int| 0 <= q < post.len() && post[q] == k;
        if q < pre.len() {
            assert(pre[q] == k);
            assert(pre.contains(k));
            assert(old_out.contains(k));
            let p = choose|p: int| 0 <= p < old_out.len() && old_out[p] == k;
            if p < j {
                assert(new_out[p] == k);
            } else {
                assert(new_out[p + 1] == k);
            }
        } else {
            assert(new_out[j] == x);
        }
    }
}

proof fn lemma_insert_distinct(old_out: Seq<RankKey>, x: RankKey, j: int)
    requires
        0 <= j <= old_out.len(),
        distinct_tasks(old_out),
        forall|m: int| 0 <= m < old_out.len() ==> #[trigger] old_out[m].idx != x.idx,
    ensures
        distinct_tasks(old_out.insert(j, x)),
{
    let new_out = old_out.insert(j, x);
    assert forall|a: int, b: int| 0 <= a < b < new_out.len() implies new_out[a].idx != new_out[b].idx by {
        if a == j {
            assert(old_out[b - 1].idx != x.idx);
        } else if b == j {
            assert(old_out[a].idx != x.idx);
        } else {
            let a0 = if a < j { a } else { a - 1 };
            let b0 = if b < j { b } else { b - 1 };
            assert(new_out[a] == old_out[a0]);
            assert(new_out[b] == old_out[b0]);
        }
    }
}

proof fn lemma_insert_sorted(rule: RankRule, old_out: Seq<RankKey>, x: RankKey, j: int)
    requires
        rule_valid(rule),
        0 <= j <= old_out.len(),
        locally_sorted(rule, old_out),
        forall|m: int| 0 <= m < old_out.len() ==> #[trigger] old_out[m].idx != x.idx,
        j > 0 ==> !ranks_after(rule, old_out[j - 1], x),
        j < old_out.len() ==> ranks_after(rule, old_out[j], x),
    ensures
        locally_sorted(rule, old_out.insert(j, x)),
{
    let new_out = old_out.insert(j, x);
    assert forall|m: int| 0 <= m < new_out.len() - 1 implies !ranks_after(rule, #[trigger] new_out[m], new_out[m + 1]) by {
        if m + 1 == j {
            assert(new_out[m] == old_out[m]);
        } else if m == j {
            assert(new_out[m + 1] == old_out[j]);
            lemma_ranks_after_antisymmetric(rule, old_out[j], x);
        } else if m < j {
            assert(new_out[m] == old_out[m]);
            assert(new_out[m + 1] == old_out[m + 1]);
        } else {
            assert(new_out[m] == old_out[m - 1]);
            assert(new_out[m + 1] == old_out[m]);
            assert(!ranks_after(rule, old_out[m - 1], old_out[m]));
        }
    }
}

/// Stable insertion sort of keys under a rule.
pub fn sort_keys(keys: &Vec<RankKey>, rule: RankRule) -> (out: Vec<RankKey>)
    requires
        rule_valid(rule),
        distinct_tasks(keys@),
        forall|i: int| 0 <= i < keys@.len() ==> key_in_range(#[trigger] keys@[i]),
    ensures
        same_keys(out@, keys@),
        distinct_tasks(out@),
        locally_sorted(rule, out@),
{
    let mut out: Vec<RankKey> = Vec::new();
    let mut i: usize = 0;
    while i < keys.len()
        invariant
            i <= keys@.len(),
            rule_valid(rule),
            distinct_tasks(keys@),
            forall|m: int| 0 <= m < keys@.len() ==> key_in_range(#[trigger] keys@[m]),
            same_keys(out@, keys@.take(i as int)),
            distinct_tasks(out@),
            locally_sorted(rule, out@),
        decreases keys@.len() - i,
    {
        let x = keys[i];
        let mut j: usize = out.len();
        proof {
            assert forall|m: int| 0 <= m < out@.len() implies key_in_range(#[trigger] out@[m]) by {
                assert(out@.contains(out@[m]));
                assert(keys@.take(i as int).contains(out@[m]));
            }
        }
        while j > 0 && ranks_after_exec(rule, &out[j - 1], &x)
            invariant
                j <= out@.len(),
                rule_valid(rule),
                key_in_range(x),
                forall|m: int| 0 <= m < out@.len() ==> key_in_range(#[trigger] out@[m]),
                j < out@.len() ==> ranks_after(rule, out@[j as int], x),
            decreases j,
        {
            j = j - 1;
        }
        let ghost old_out = out@;
        proof {
            // x's task is not yet in out
            assert forall|m: int| 0 <= m < old_out.len() implies #[trigger] old_out[m].idx != x.idx by {
                assert(old_out.contains(old_out[m]));
                assert(keys@.take(i as int).contains(old_out[m]));
                let p = choose|p: int| 0 <= p < i && keys@.take(i as int)[p] == old_out[m];
                assert(keys@[p] == old_out[m]);
            }
        }
        out.insert(j, x);
        proof {
            assert(keys@.take(i as int + 1) == keys@.take(i as int).push(x));
            lemma_insert_same_keys(old_out, keys@.take(i as int), x, j as int);
            lemma_insert_distinct(old_out, x, j as int);
            lemma_insert_sorted(rule, old_out, x, j as int);
        }
        i = i + 1;
    }
    proof {
        assert(keys@.take(keys@.len() as int) == keys@);
    }
    out
}

} // verus!
