//! The Phase-1 sweep: which configurations are run, with which seeds.

use vstd::prelude::*;
use crate::task::Weather;

verus! {

/// Number of tightness steps between the ends of the swept range.
pub const TIGHTNESS_STEPS: usize = 10;

/// The `i`-th tightness point: `0.5 + (2.46 - 0.5) * i / 10`, in fixed point.
pub open spec fn tightness_point(i: int) -> int {
    500_000 + 196_000 * i
}

/// Tightness sweep points spanning the [0.5, 2.46] range: 11 points.
pub fn tightness_sweep_points() -> (pts: Vec<i64>)
    ensures
        pts@.len() == TIGHTNESS_STEPS + 1,
        forall|i: int| 0 <= i < pts@.len() ==> #[trigger] pts@[i] == tightness_point(i),
{
    let mut pts: Vec<i64> = Vec::new();
    let mut i: usize = 0;
    while i <= TIGHTNESS_STEPS
        invariant
            i <= TIGHTNESS_STEPS + 1,
            pts@.len() == i,
            forall|q: int| 0 <= q < i ==> #[trigger] pts@[q] == tightness_point(q),
        decreases TIGHTNESS_STEPS + 1 - i,
    {
        pts.push(500_000 + 196_000 * i as i64);
        i = i + 1;
    }
    pts
}

/// One configuration of the sweep.
#[derive(Debug, Clone, Copy)]
pub struct SweepPoint {
    pub num_cores: usize,
    pub weather: Weather,
    pub tightness: i64,
    /// Seed of the configuration's first run; run `r` uses `base_seed + r`.
    pub base_seed: u64,
}

/// The `j`-th weather of the sweep.
pub open spec fn weather_at(j: int) -> Weather {
    if j == 0 { Weather::Sunny } else if j == 1 { Weather::Rainy } else { Weather::Snowy }
}

/// The `m`-th configuration: cores in {2, 4}, then weather, then tightness,
/// with seeds 1000, 11000, 21000, ...
pub open spec fn sweep_point(m: int) -> SweepPoint {
    let c = m / 33;
    let w = (m % 33) / 11;
    let p = m % 11;
    SweepPoint {
        num_cores: if c == 0 { 2 } else { 4 },
        weather: weather_at(w),
        tightness: tightness_point(p) as i64,
        base_seed: (1000 + 10_000 * m) as u64,
    }
}

/// Every configuration of the Phase-1 sweep, in the order it is run:
/// {2, 4} cores x {sunny, rainy, snowy} x the tightness points.
pub fn sweep_plan() -> (plan: Vec<SweepPoint>)
    ensures
        plan@.len() == 66,
        forall|m: int| 0 <= m < 66 ==> #[trigger] plan@[m] == sweep_point(m),
{
    let core_counts: [usize; 2] = [2, 4];
    let weathers = Weather::all();
    let tightness_points = tightness_sweep_points();
    let mut plan: Vec<SweepPoint> = Vec::new();
    let mut seed_counter: u64 = 1000;
    let mut c: usize = 0;
    while c < 2
        invariant
            c <= 2,
            core_counts@ == seq![2usize, 4usize],
            weathers@ == seq![Weather::Sunny, Weather::Rainy, Weather::Snowy],
            tightness_points@.len() == 11,
            forall|q: int| 0 <= q < 11 ==> #[trigger] tightness_points@[q] == tightness_point(q),
            plan@.len() == 33 * c,
            seed_counter == 1000 + 10_000 * plan@.len(),
            forall|m: int| 0 <= m < plan@.len() ==> #[trigger] plan@[m] == sweep_point(m),
        decreases 2 - c,
    {
        let mut w: usize = 0;
        while w < 3
            invariant
                c < 2,
                w <= 3,
                core_counts@ == seq![2usize, 4usize],
                weathers@ == seq![Weather::Sunny, Weather::Rainy, Weather::Snowy],
                tightness_points@.len() == 11,
                forall|q: int| 0 <= q < 11 ==> #[trigger] tightness_points@[q] == tightness_point(q),
                plan@.len() == 33 * c + 11 * w,
                seed_counter == 1000 + 10_000 * plan@.len(),
                forall|m: int| 0 <= m < plan@.len() ==> #[trigger] plan@[m] == sweep_point(m),
            decreases 3 - w,
        {
            let mut p: usize = 0;
            while p < 11
                invariant
                    c < 2,
                    w < 3,
                    p <= 11,
                    core_counts@ == seq![2usize, 4usize],
                    weathers@ == seq![Weather::Sunny, Weather::Rainy, Weather::Snowy],
                    tightness_points@.len() == 11,
                    forall|q: int| 0 <= q < 11 ==> #[trigger] tightness_points@[q] == tightness_point(q),
                    plan@.len() == 33 * c + 11 * w + p,
                    seed_counter == 1000 + 10_000 * plan@.len(),
                    forall|m: int| 0 <= m < plan@.len() ==> #[trigger] plan@[m] == sweep_point(m),
                decreases 11 - p,
            {
                let ghost m = plan@.len() as int;
                plan.push(SweepPoint {
                    num_cores: core_counts[c],
                    weather: weathers[w],
                    tightness: tightness_points[p],
                    base_seed: seed_counter,
                });
                seed_counter = seed_counter + 10_000;
                proof {
                    assert(m / 33 == c as int && (m % 33) / 11 == w as int && m % 11 == p as int) by (nonlinear_arith)
                        requires m == 33 * c + 11 * w + p, 0 <= c < 2, 0 <= w < 3, 0 <= p < 11;
                    assert(plan@[m] == sweep_point(m));
                }
                p = p + 1;
            }
            w = w + 1;
        }
        c = c + 1;
    }
    plan
}

} // verus!
