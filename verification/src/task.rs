//! Task model: weather, fixed-point physical quantities, time-to-collision
//! deadlines, laxity and the relaxation metric helpers.
//!
//! Every real-valued quantity of the model (times in ticks, distances in
//! metres, dimensionless coefficients) is stored as a fixed-point integer:
//! the real value `x` is represented by `x * FIXED_ONE`.

use vstd::prelude::*;

verus! {

/// Fixed-point representation of `1.0`.
pub const FIXED_ONE: i64 = 1_000_000;

/// Initial vehicle speed `v0` (m/s), as a whole number.
pub const V0: i64 = 30;

/// Braking deceleration `a` (m/s^2), as a whole number.
pub const A: i64 = 5;

/// Time to collision used when no real collision solution exists (50 ticks).
pub const FALLBACK_TTC: i64 = 50_000_000;

/// Number of user priority levels (fixed point: 5.0).
pub const PRIORITY_LEVELS: i64 = 5_000_000;

/// Priority levels: 1 = highest priority, 5 = lowest.
pub type Priority = u8;

#[derive(Debug, Clone, Copy, PartialEq, Eq, Structural)]
pub enum Weather {
    Sunny,
    Rainy,
    Snowy,
}

/// The weather's braking-power coefficient lambda, in fixed point.
pub open spec fn spec_lambda(w: Weather) -> int {
    match w {
        Weather::Sunny => 0,
        Weather::Rainy => 300_000,
        Weather::Snowy => 600_000,
    }
}

/// The lowercase name of a weather condition.
pub open spec fn weather_name(w: Weather) -> Seq<char> {
    match w {
        Weather::Sunny => seq!['s', 'u', 'n', 'n', 'y'],
        Weather::Rainy => seq!['r', 'a', 'i', 'n', 'y'],
        Weather::Snowy => seq!['s', 'n', 'o', 'w', 'y'],
    }
}

impl Weather {
    /// lambda: the effect of the weather on braking power (0.0, 0.3, 0.6).
    pub fn lambda(&self) -> (l: i64)
        ensures
            l == spec_lambda(*self),
    {
        match self {
            Weather::Sunny => 0,
            Weather::Rainy => 300_000,
            Weather::Snowy => 600_000,
        }
    }

    pub fn as_str(&self) -> (s: &'static str)
        ensures
            s@ == weather_name(*self),
    {
        proof {
            reveal_strlit("sunny");
            reveal_strlit("rainy");
            reveal_strlit("snowy");
        }
        match self {
            Weather::Sunny => "sunny",
            Weather::Rainy => "rainy",
            Weather::Snowy => "snowy",
        }
    }

    pub fn all() -> (ws: [Weather; 3])
        ensures
            ws@ == seq![Weather::Sunny, Weather::Rainy, Weather::Snowy],
    {
        [Weather::Sunny, Weather::Rainy, Weather::Snowy]
    }
}


#[derive(Debug, Clone, Copy)]
pub struct Task {
    pub id: usize,
    pub arrival_time: i64,
    pub execution_time: i64,
    pub remaining_time: i64,
    pub priority: Priority,
    pub obstacle_distance: i64,
    pub deadline: i64,
    // --- Bookkeeping fields populated during simulation ---
    pub start_time: Option<i64>,
    pub finish_time: Option<i64>,
    pub dropped: bool,
    pub dropped_at: Option<i64>,
    pub context_switches_incurred: u32,
    pub completed: bool,
}

/// Laxity of a task at time `t`: deadline - t - remaining execution time.
pub open spec fn spec_laxity(tk: Task, t: int) -> int {
    tk.deadline - t - tk.remaining_time
}

impl Task {
    /// Laxity at current time `t`:
    ///     Laxity = Deadline - t - RemainingExecutionTime
    pub fn laxity(&self, t: i64) -> (l: i128)
        ensures
            l == spec_laxity(*self, t as int),
    {
        self.deadline as i128 - t as i128 - self.remaining_time as i128
    }
}

/// `d_effective = d / tightness`: how deadline tightness enters the TTC
/// formula (a tighter deadline shrinks the effective obstacle distance).
pub open spec fn spec_effective_distance(obstacle_distance: int, tightness: int) -> int {
    obstacle_distance * FIXED_ONE / tightness
}

pub fn effective_distance(obstacle_distance: i64, tightness: i64) -> (d: i128)
    requires
        obstacle_distance >= 0,
        tightness > 0,
    ensures
        d == spec_effective_distance(obstacle_distance as int, tightness as int),
        0 <= d <= obstacle_distance * FIXED_ONE,
{
    proof {
        vstd::arithmetic::div_mod::lemma_div_is_ordered_by_denominator(
            obstacle_distance * FIXED_ONE, 1, tightness as int);
    }
    (obstacle_distance as i128 * FIXED_ONE as i128) / tightness as i128
}

/// `s` is the integer square root of `n`.
pub open spec fn is_floor_sqrt(s: int, n: int) -> bool {
    0 <= s && s * s <= n < (s + 1) * (s + 1)
}

proof fn lemma_square_monotone(a: int, b: int)
    requires
        0 <= a <= b,
    ensures
        a * a <= b * b,
{
    vstd::arithmetic::mul::lemma_mul_upper_bound(a, b, a, b);
}

/// Integer square root by bisection.
pub fn floor_sqrt(n: u128) -> (s: u128)
    requires
        n <= 0x1000_0000_0000_0000_0000_0000_0000_0000u128,
    ensures
        is_floor_sqrt(s as int, n as int),
{
    let mut lo: u128 = 0;
    let mut hi: u128 = 0x4000_0000_0000_0001u128;
    proof {
        assert(0x4000_0000_0000_0001int * 0x4000_0000_0000_0001int > 0x1000_0000_0000_0000_0000_0000_0000_0000int)
            by (nonlinear_arith);
    }
    while hi - lo > 1
        invariant
            lo < hi <= 0x4000_0000_0000_0001u128,
            lo * lo <= n,
            n < hi * hi,
        decreases hi - lo,
    {
        let mid = lo + (hi - lo) / 2;
        proof {
            lemma_square_monotone(mid as int, 0x4000_0000_0000_0001int);
            assert(0x4000_0000_0000_0001int * 0x4000_0000_0000_0001int < 0x1_0000_0000_0000_0000_0000_0000_0000_0000int)
                by (nonlinear_arith);
        }
        if mid * mid <= n {
            lo = mid;
        } else {
            hi = mid;
        }
    }
    lo
}

/// The radicand `v0^2 - 2 a (1 - lambda) d`, scaled by `FIXED_ONE^2`.
pub open spec fn ttc_radicand(d_effective: int, lambda: int) -> int {
    V0 * V0 * FIXED_ONE * FIXED_ONE - 2 * A * (FIXED_ONE - lambda) * d_effective
}

/// `(v0 - sqrt(radicand)) / (a (1 - lambda))`, in fixed point, given the
/// integer square root of the scaled radicand.
pub open spec fn ttc_from_root(root: int, lambda: int) -> int {
    FIXED_ONE * (V0 * FIXED_ONE - root) / (A * (FIXED_ONE - lambda))
}

/// The time to collision, or `None` where braking cannot be modelled
/// (`1 - lambda <= 0`) or no real collision solution exists.
pub open spec fn ttc_defined(d_effective: int, lambda: int) -> bool {
    lambda < FIXED_ONE && ttc_radicand(d_effective, lambda) >= 0
}

/// The integer square root of `n >= 0`.
pub open spec fn spec_floor_sqrt(n: int) -> int {
    choose|s: int| is_floor_sqrt(s, n)
}

/// The time to collision in fixed point: the smaller root of
/// `d = v0 t - a (1 - lambda) t^2 / 2`, where it exists.
pub open spec fn spec_ttc(d_effective: int, lambda: int) -> Option<int> {
    if ttc_defined(d_effective, lambda) {
        Some(ttc_from_root(spec_floor_sqrt(ttc_radicand(d_effective, lambda)), lambda))
    } else {
        None
    }
}

/// The integer square root is unique.
pub proof fn lemma_floor_sqrt_unique(s: int, n: int)
    requires
        is_floor_sqrt(s, n),
    ensures
        spec_floor_sqrt(n) == s,
{
    let t = spec_floor_sqrt(n);
    assert(is_floor_sqrt(t, n));
    if t < s {
        lemma_square_monotone(t + 1, s);
    } else if s < t {
        lemma_square_monotone(s + 1, t);
    }
}

/// The integer square root does not decrease with its argument.
pub proof fn lemma_floor_sqrt_monotone(n1: int, n2: int)
    requires
        0 <= n1 <= n2,
    ensures
        0 <= spec_floor_sqrt(n1) <= spec_floor_sqrt(n2),
{
    lemma_floor_sqrt_exists(n1);
    lemma_floor_sqrt_exists(n2);
    let s1 = spec_floor_sqrt(n1);
    let s2 = spec_floor_sqrt(n2);
    if s2 < s1 {
        lemma_square_monotone(s2 + 1, s1);
    }
}

/// Every non-negative integer has an integer square root.
pub proof fn lemma_floor_sqrt_exists(n: int)
    requires
        n >= 0,
    ensures
        is_floor_sqrt(spec_floor_sqrt(n), n),
    decreases n,
{
    if n == 0 {
        assert(is_floor_sqrt(0, 0));
    } else {
        lemma_floor_sqrt_exists(n - 1);
        let s = spec_floor_sqrt(n - 1);
        if (s + 1) * (s + 1) <= n {
            assert((s + 1) * (s + 1) == n);
            assert((s + 2) * (s + 2) > n) by (nonlinear_arith)
                requires (s + 1) * (s + 1) == n, s >= 0;
            assert(is_floor_sqrt(s + 1, n));
        } else {
            assert(is_floor_sqrt(s, n));
        }
    }
}

pub fn time_to_collision(d_effective: i128, lambda: i64) -> (r: Option<i64>)
    requires
        0 <= d_effective,
        lambda < FIXED_ONE ==> d_effective * (FIXED_ONE - lambda) <= 0x4000_0000_0000_0000_0000_0000_0000int,
    ensures
        r is Some <==> ttc_defined(d_effective as int, lambda as int),
        r matches Some(ttc) ==> spec_ttc(d_effective as int, lambda as int) == Some(ttc as int),
        r matches Some(ttc) ==> 0 <= ttc <= V0 * FIXED_ONE * FIXED_ONE,
        r matches Some(ttc) ==> ttc <= FIXED_ONE * (V0 * FIXED_ONE) / (A * (FIXED_ONE - lambda)),
{
    if lambda >= FIXED_ONE {
        // (1 - lambda) should always be > 0 for the weather lambdas,
        // but guard defensively against degenerate inputs.
        return None;
    }
    let denom: i128 = A as i128 * (FIXED_ONE as i128 - lambda as i128);
    proof {
        assert(0 <= 2 * denom * d_effective <= 10 * 0x4000_0000_0000_0000_0000_0000_0000int)
            by (nonlinear_arith)
            requires
                denom == 5 * (FIXED_ONE - lambda),
                0 < FIXED_ONE - lambda,
                0 <= d_effective,
                d_effective * (FIXED_ONE - lambda) <= 0x4000_0000_0000_0000_0000_0000_0000int;
    }
    let braking: i128 = 2 * denom * d_effective;
    let under_sqrt: i128 = 900_000_000_000_000i128 - braking;
    proof {
        assert(under_sqrt == ttc_radicand(d_effective as int, lambda as int)) by (nonlinear_arith)
            requires
                denom == A * (FIXED_ONE - lambda),
                braking == 2 * denom * d_effective,
                under_sqrt == 900_000_000_000_000int - braking;
    }
    if under_sqrt < 0 {
        return None;
    }
    let root = floor_sqrt(under_sqrt as u128);
    proof {
        assert(root <= V0 * FIXED_ONE) by {
            if root > V0 * FIXED_ONE {
                lemma_square_monotone(V0 * FIXED_ONE + 1, root as int);
                assert(30_000_001int * 30_000_001int > 900_000_000_000_000int) by (nonlinear_arith);
            }
        }
    }
    let num: i128 = FIXED_ONE as i128 * (V0 as i128 * FIXED_ONE as i128 - root as i128);
    proof {
        vstd::arithmetic::div_mod::lemma_div_is_ordered_by_denominator(num as int, 1, denom as int);
        vstd::arithmetic::div_mod::lemma_div_pos_is_pos(num as int, denom as int);
    }
    let ttc = num / denom;
    proof {
        lemma_floor_sqrt_unique(root as int, ttc_radicand(d_effective as int, lambda as int));
        assert(num == FIXED_ONE * (V0 * FIXED_ONE - root));
        assert(denom == A * (FIXED_ONE - lambda));
        assert(ttc == ttc_from_root(root as int, lambda as int));
        lemma_ttc_before_vertex(d_effective as int, lambda as int);
    }
    Some(ttc as i64)
}

/// The time to collision is the smaller root of the braking equation: it is
/// never negative, never later than the vertex `v0 / (a (1 - lambda))`
/// where the vehicle would stop, and zero for an obstacle at distance zero.
pub proof fn lemma_ttc_before_vertex(d_effective: int, lambda: int)
    requires
        d_effective >= 0,
        ttc_defined(d_effective, lambda),
    ensures
        spec_ttc(d_effective, lambda) matches Some(x)
            && 0 <= x <= FIXED_ONE * (V0 * FIXED_ONE) / (A * (FIXED_ONE - lambda)),
        d_effective == 0 ==> spec_ttc(d_effective, lambda) == Some(0int),
{
    let n = ttc_radicand(d_effective, lambda);
    let k = A * (FIXED_ONE - lambda);
    assert(0 <= 2 * A * (FIXED_ONE - lambda) * d_effective) by (nonlinear_arith)
        requires FIXED_ONE - lambda > 0, d_effective >= 0;
    assert(n <= 900_000_000_000_000int);
    lemma_floor_sqrt_exists(n);
    let root = spec_floor_sqrt(n);
    assert(root <= V0 * FIXED_ONE) by {
        if root > V0 * FIXED_ONE {
            lemma_square_monotone(V0 * FIXED_ONE + 1, root);
            assert(30_000_001int * 30_000_001int > 900_000_000_000_000int) by (nonlinear_arith);
        }
    }
    let num = FIXED_ONE * (V0 * FIXED_ONE - root);
    assert(0 <= num <= FIXED_ONE * (V0 * FIXED_ONE));
    vstd::arithmetic::div_mod::lemma_div_is_ordered(num, FIXED_ONE * (V0 * FIXED_ONE), k);
    vstd::arithmetic::div_mod::lemma_div_pos_is_pos(num, k);
    if d_effective == 0 {
        assert(2 * A * (FIXED_ONE - lambda) * d_effective == 0) by (nonlinear_arith)
            requires d_effective == 0;
        assert(n == 900_000_000_000_000int);
        assert(is_floor_sqrt(V0 * FIXED_ONE, n)) by {
            assert(30_000_000int * 30_000_000int == 900_000_000_000_000int) by (nonlinear_arith);
            assert(30_000_001int * 30_000_001int > 900_000_000_000_000int) by (nonlinear_arith);
        }
        lemma_floor_sqrt_unique(V0 * FIXED_ONE, n);
        assert(num == 0);
    }
}

/// The time a task may wait for its obstacle: the time to collision, or
/// `FALLBACK_TTC` where no collision solution exists.
pub open spec fn ttc_or_fallback(d_effective: int, lambda: int) -> int {
    match spec_ttc(d_effective, lambda) {
        Some(x) => x,
        None => FALLBACK_TTC as int,
    }
}

/// The deadline of a task: its arrival plus the time to collision with the
/// obstacle at the effective distance.
pub open spec fn spec_deadline(arrival_time: int, obstacle_distance: int, weather: Weather, tightness: int) -> int {
    arrival_time + ttc_or_fallback(spec_effective_distance(obstacle_distance, tightness), spec_lambda(weather))
}

pub fn compute_deadline(arrival_time: i64, obstacle_distance: i64, weather: Weather, tightness: i64) -> (d: i64)
    requires
        obstacle_distance >= 0,
        tightness > 0,
        arrival_time <= i64::MAX - FALLBACK_TTC,
    ensures
        d == spec_deadline(arrival_time as int, obstacle_distance as int, weather, tightness as int),
        arrival_time <= d <= arrival_time + FALLBACK_TTC,
{
    let d_eff = effective_distance(obstacle_distance, tightness);
    let lambda = weather.lambda();
    proof {
        assert(d_eff * (FIXED_ONE - lambda) <= 0x4000_0000_0000_0000_0000_0000_0000int) by (nonlinear_arith)
            requires
                0 <= d_eff <= obstacle_distance * FIXED_ONE,
                0 <= obstacle_distance <= i64::MAX,
                0 <= lambda <= 600_000;
    }
    let ttc_opt = time_to_collision(d_eff, lambda);
    let ttc = match ttc_opt {
        Some(x) => x,
        None => FALLBACK_TTC,
    };
    proof {
        lemma_ttc_or_fallback_monotone(d_eff as int, d_eff as int, lambda as int);
    }
    arrival_time + ttc
}

/// The time to collision (or the fallback) never decreases as the effective
/// distance grows, and it stays within `[0, FALLBACK_TTC]`.
proof fn lemma_ttc_or_fallback_monotone(e1: int, e2: int, lambda: int)
    requires
        0 <= e1 <= e2,
        0 <= lambda <= 600_000,
    ensures
        ttc_or_fallback(e1, lambda) <= ttc_or_fallback(e2, lambda),
        0 <= ttc_or_fallback(e1, lambda) <= FALLBACK_TTC,
{
    let denom = A * (FIXED_ONE - lambda);
    assert(2_000_000 <= denom <= 5_000_000);
    assert(ttc_radicand(e2, lambda) <= ttc_radicand(e1, lambda)) by (nonlinear_arith)
        requires
            0 <= e1 <= e2,
            0 < FIXED_ONE - lambda;
    if ttc_defined(e1, lambda) {
        let r1 = spec_floor_sqrt(ttc_radicand(e1, lambda));
        lemma_floor_sqrt_exists(ttc_radicand(e1, lambda));
        assert(r1 <= V0 * FIXED_ONE) by {
            if r1 > V0 * FIXED_ONE {
                lemma_square_monotone(V0 * FIXED_ONE + 1, r1);
                assert(30_000_001int * 30_000_001int > 900_000_000_000_000int) by (nonlinear_arith);
                assert(ttc_radicand(e1, lambda) <= 900_000_000_000_000int) by (nonlinear_arith)
                    requires 0 <= e1, 0 < FIXED_ONE - lambda;
            }
        }
        let n1 = FIXED_ONE * (V0 * FIXED_ONE - r1);
        assert(0 <= n1 <= 30_000_000_000_000int);
        vstd::arithmetic::div_mod::lemma_div_pos_is_pos(n1, denom);
        vstd::arithmetic::div_mod::lemma_div_is_ordered(n1, 30_000_000_000_000int, denom);
        vstd::arithmetic::div_mod::lemma_div_is_ordered_by_denominator(30_000_000_000_000int, 2_000_000, denom);
        assert(ttc_or_fallback(e1, lambda) == n1 / denom);
        if ttc_defined(e2, lambda) {
            let r2 = spec_floor_sqrt(ttc_radicand(e2, lambda));
            lemma_floor_sqrt_monotone(ttc_radicand(e2, lambda), ttc_radicand(e1, lambda));
            let n2 = FIXED_ONE * (V0 * FIXED_ONE - r2);
            assert(n1 <= n2);
            vstd::arithmetic::div_mod::lemma_div_is_ordered(n1, n2, denom);
            assert(ttc_or_fallback(e2, lambda) == n2 / denom);
        }
    }
}

/// The rounded time to collision exceeds the exact one, `2 d / (v0 + sqrt(..))`,
/// by less than half a unit: in integers, with `p = v0 - root` and
/// `q = v0 + root` scaled, `p q >= 2 b d` and `p q < 2 b d + 2 root + 1`.
proof fn lemma_root_bounds(d: int, lambda: int)
    requires
        0 <= d,
        0 <= lambda <= 600_000,
        ttc_defined(d, lambda),
    ensures
        ({
            let r = spec_floor_sqrt(ttc_radicand(d, lambda));
            let b = A * (FIXED_ONE - lambda);
            &&& 0 <= r <= V0 * FIXED_ONE
            &&& (V0 * FIXED_ONE - r) * (V0 * FIXED_ONE + r) >= 2 * b * d
            &&& (V0 * FIXED_ONE - r) * (V0 * FIXED_ONE + r) < 2 * b * d + 2 * r + 1
        }),
{
    let rad = ttc_radicand(d, lambda);
    lemma_floor_sqrt_exists(rad);
    let r = spec_floor_sqrt(rad);
    let b = A * (FIXED_ONE - lambda);
    let c = V0 * FIXED_ONE;
    assert(rad == c * c - 2 * b * d) by (nonlinear_arith)
        requires
            rad == ttc_radicand(d, lambda),
            ttc_radicand(d, lambda) == V0 * V0 * FIXED_ONE * FIXED_ONE - 2 * A * (FIXED_ONE - lambda) * d,
            c == V0 * FIXED_ONE,
            b == A * (FIXED_ONE - lambda);
    assert(rad <= c * c) by (nonlinear_arith)
        requires rad == c * c - 2 * b * d, b > 0, d >= 0;
    if r > c {
        lemma_square_monotone(c + 1, r);
        assert((c + 1) * (c + 1) > c * c) by (nonlinear_arith)
            requires c > 0;
    }
    assert((c - r) * (c + r) == c * c - r * r) by (nonlinear_arith);
    assert((r + 1) * (r + 1) == r * r + 2 * r + 1) by (nonlinear_arith);
}

/// Worse weather (a larger lambda) never makes the rounded time to
/// collision longer by more than one fixed-point unit.
proof fn lemma_ttc_weather(d: int, l1: int, l2: int)
    requires
        0 <= d,
        0 <= l1 <= l2 <= 600_000,
    ensures
        ttc_or_fallback(d, l2) <= ttc_or_fallback(d, l1) + 1,
{
    lemma_ttc_or_fallback_monotone(d, d, l1);
    lemma_ttc_or_fallback_monotone(d, d, l2);
    if ttc_defined(d, l1) {
        let m = FIXED_ONE as int;
        let c = V0 * FIXED_ONE;
        let b1 = A * (FIXED_ONE - l1);
        let b2 = A * (FIXED_ONE - l2);
        assert(b2 <= b1);
        assert(ttc_radicand(d, l1) <= ttc_radicand(d, l2)) by (nonlinear_arith)
            requires b2 <= b1, d >= 0,
                ttc_radicand(d, l1) == V0 * V0 * FIXED_ONE * FIXED_ONE - 2 * A * (FIXED_ONE - l1) * d,
                ttc_radicand(d, l2) == V0 * V0 * FIXED_ONE * FIXED_ONE - 2 * A * (FIXED_ONE - l2) * d,
                b1 == A * (FIXED_ONE - l1),
                b2 == A * (FIXED_ONE - l2);
        assert(ttc_defined(d, l2));
        lemma_root_bounds(d, l1);
        lemma_root_bounds(d, l2);
        let r1 = spec_floor_sqrt(ttc_radicand(d, l1));
        let r2 = spec_floor_sqrt(ttc_radicand(d, l2));
        lemma_floor_sqrt_monotone(ttc_radicand(d, l1), ttc_radicand(d, l2));
        let p1 = c - r1;
        let q1 = c + r1;
        let p2 = c - r2;
        let q2 = c + r2;
        let n1 = m * p1;
        let n2 = m * p2;
        // n2 * b1 < n1 * b2 + b1 * b2, shown after multiplying by q2 > 0
        assert(m * b1 * (p2 * q2) < m * b1 * (2 * b2 * d + 2 * r2 + 1)) by (nonlinear_arith)
            requires m > 0, b1 > 0, p2 * q2 < 2 * b2 * d + 2 * r2 + 1;
        assert(m * p1 * b2 * q2 >= m * b2 * (p1 * q1)) by (nonlinear_arith)
            requires m > 0, b2 > 0, p1 >= 0, q2 >= q1;
        assert(m * b2 * (p1 * q1) >= m * b2 * (2 * b1 * d)) by (nonlinear_arith)
            requires m > 0, b2 > 0, p1 * q1 >= 2 * b1 * d;
        assert(m * b1 * (2 * r2 + 1) <= b1 * b2 * q2) by (nonlinear_arith)
            requires m == 1_000_000, b1 > 0, b2 >= 2_000_000, q2 == c + r2, c == 30_000_000, r2 >= 0;
        let lhs = (n2 * b1) * q2;
        let rhs = (n1 * b2 + b1 * b2) * q2;
        let base = m * b1 * (2 * b2 * d + 2 * r2 + 1);
        let mid = m * b2 * (2 * b1 * d);
        let extra = m * b1 * (2 * r2 + 1);
        let bbq = b1 * b2 * q2;
        let nbq = m * p1 * b2 * q2;
        assert(lhs == m * b1 * (p2 * q2)) by (nonlinear_arith)
            requires lhs == (n2 * b1) * q2, n2 == m * p2;
        assert(base == mid + extra) by (nonlinear_arith)
            requires base == m * b1 * (2 * b2 * d + 2 * r2 + 1), mid == m * b2 * (2 * b1 * d),
                extra == m * b1 * (2 * r2 + 1);
        assert(rhs == nbq + bbq) by (nonlinear_arith)
            requires rhs == (n1 * b2 + b1 * b2) * q2, n1 == m * p1, nbq == m * p1 * b2 * q2, bbq == b1 * b2 * q2;
        assert(lhs < rhs);
        assert(n2 * b1 < n1 * b2 + b1 * b2) by (nonlinear_arith)
            requires (n2 * b1) * q2 < (n1 * b2 + b1 * b2) * q2, q2 > 0;
        // the floors of the two quotients
        let t1 = n1 / b1;
        let t2 = n2 / b2;
        vstd::arithmetic::div_mod::lemma_fundamental_div_mod(n1, b1);
        vstd::arithmetic::div_mod::lemma_fundamental_div_mod(n2, b2);
        assert(t1 == ttc_or_fallback(d, l1));
        assert(t2 == ttc_or_fallback(d, l2));
        assert(t2 <= t1 + 1) by (nonlinear_arith)
            requires
                n1 == b1 * t1 + n1 % b1, 0 <= n1 % b1 < b1,
                n2 == b2 * t2 + n2 % b2, 0 <= n2 % b2 < b2,
                n2 * b1 < n1 * b2 + b1 * b2,
                b1 > 0, b2 > 0;
    }
}

/// Worse weather (a larger lambda) never makes a deadline later by more
/// than one fixed-point unit (a millionth of a tick); only the rounding of
/// the square root and of the quotient can make it later at all.
pub proof fn lemma_deadline_weather(arrival_time: int, obstacle_distance: int, w1: Weather, w2: Weather, tightness: int)
    requires
        obstacle_distance >= 0,
        tightness > 0,
        spec_lambda(w1) <= spec_lambda(w2),
    ensures
        spec_deadline(arrival_time, obstacle_distance, w2, tightness)
            <= spec_deadline(arrival_time, obstacle_distance, w1, tightness) + 1,
{
    vstd::arithmetic::div_mod::lemma_div_pos_is_pos(obstacle_distance * FIXED_ONE, tightness);
    lemma_ttc_weather(spec_effective_distance(obstacle_distance, tightness), spec_lambda(w1), spec_lambda(w2));
}

/// A farther obstacle never gives an earlier deadline.
pub proof fn lemma_deadline_monotone_in_distance(arrival_time: int, d1: int, d2: int, weather: Weather, tightness: int)
    requires
        0 <= d1 <= d2,
        tightness > 0,
    ensures
        spec_deadline(arrival_time, d1, weather, tightness) <= spec_deadline(arrival_time, d2, weather, tightness),
{
    let e1 = spec_effective_distance(d1, tightness);
    let e2 = spec_effective_distance(d2, tightness);
    vstd::arithmetic::div_mod::lemma_div_pos_is_pos(d1 * FIXED_ONE, tightness);
    vstd::arithmetic::div_mod::lemma_div_is_ordered(d1 * FIXED_ONE, d2 * FIXED_ONE, tightness);
    lemma_ttc_or_fallback_monotone(e1, e2, spec_lambda(weather));
}

/// A higher deadline tightness never gives a later deadline.
pub proof fn lemma_deadline_monotone_in_tightness(arrival_time: int, obstacle_distance: int, weather: Weather, t1: int, t2: int)
    requires
        obstacle_distance >= 0,
        0 < t1 <= t2,
    ensures
        spec_deadline(arrival_time, obstacle_distance, weather, t2) <= spec_deadline(arrival_time, obstacle_distance, weather, t1),
{
    let e1 = spec_effective_distance(obstacle_distance, t1);
    let e2 = spec_effective_distance(obstacle_distance, t2);
    vstd::arithmetic::div_mod::lemma_div_pos_is_pos(obstacle_distance * FIXED_ONE, t2);
    vstd::arithmetic::div_mod::lemma_div_is_ordered_by_denominator(obstacle_distance * FIXED_ONE, t1, t2);
    lemma_ttc_or_fallback_monotone(e2, e1, spec_lambda(weather));
}

/// A deadline lies between the arrival and `FALLBACK_TTC` after it.
pub proof fn lemma_deadline_bounds(arrival_time: int, obstacle_distance: int, weather: Weather, tightness: int)
    requires
        obstacle_distance >= 0,
        tightness > 0,
    ensures
        arrival_time <= spec_deadline(arrival_time, obstacle_distance, weather, tightness) <= arrival_time + FALLBACK_TTC,
{
    let e = spec_effective_distance(obstacle_distance, tightness);
    vstd::arithmetic::div_mod::lemma_div_pos_is_pos(obstacle_distance * FIXED_ONE, tightness);
    lemma_ttc_or_fallback_monotone(e, e, spec_lambda(weather));
}

// ---------------------------------------------------------------------
// Relaxation (R) metric helpers: theta(lambda), laxity normalization to
// the priority scale, and R = theta * L_norm + priority.
// ---------------------------------------------------------------------

/// theta(lambda) = 1.5 + lambda, in fixed point.
pub open spec fn spec_theta(lambda: int) -> int {
    1_500_000 + lambda
}

/// The weather coefficients: lambda is 0 when sunny, 0.3 in rain and 0.6 in
/// snow, and the relaxation weight theta is 1.5 + lambda (1.5, 1.8, 2.1).
pub proof fn lemma_weather_coefficients(w: Weather)
    ensures
        w == Weather::Sunny ==> spec_lambda(w) == 0 && spec_theta(spec_lambda(w)) == 3 * FIXED_ONE / 2,
        w == Weather::Rainy ==> spec_lambda(w) == 3 * FIXED_ONE / 10 && spec_theta(spec_lambda(w)) == 18 * FIXED_ONE / 10,
        w == Weather::Snowy ==> spec_lambda(w) == 6 * FIXED_ONE / 10 && spec_theta(spec_lambda(w)) == 21 * FIXED_ONE / 10,
        spec_theta(spec_lambda(w)) - spec_lambda(w) == 3 * FIXED_ONE / 2,
{
}

pub fn theta(lambda: i64) -> (th: i128)
    ensures
        th == spec_theta(lambda as int),
{
    1_500_000i128 + lambda as i128
}

/// The least element of a non-empty sequence.
pub open spec fn seq_min(s: Seq<i128>) -> int
    decreases s.len(),
{
    if s.len() <= 1 {
        s[0] as int
    } else {
        let m = seq_min(s.drop_last());
        if (s.last() as int) < m { s.last() as int } else { m }
    }
}

/// The greatest element of a non-empty sequence.
pub open spec fn seq_max(s: Seq<i128>) -> int
    decreases s.len(),
{
    if s.len() <= 1 {
        s[0] as int
    } else {
        let m = seq_max(s.drop_last());
        if (s.last() as int) > m { s.last() as int } else { m }
    }
}

proof fn lemma_seq_min_max_bounds(s: Seq<i128>)
    requires
        s.len() > 0,
    ensures
        forall|i: int| 0 <= i < s.len() ==> seq_min(s) <= #[trigger] s[i] <= seq_max(s),
        exists|i: int| 0 <= i < s.len() && s[i] == seq_min(s),
        exists|i: int| 0 <= i < s.len() && s[i] == seq_max(s),
    decreases s.len(),
{
    if s.len() <= 1 {
        assert(s[0] == seq_min(s));
        assert(s[0] == seq_max(s));
    } else {
        lemma_seq_min_max_bounds(s.drop_last());
        let t = s.drop_last();
        assert forall|i: int| 0 <= i < s.len() implies seq_min(s) <= #[trigger] s[i] <= seq_max(s) by {
            if i < s.len() - 1 {
                assert(s[i] == t[i]);
            }
        }
        let j = choose|j: int| 0 <= j < t.len() && t[j] == seq_min(t);
        let k = choose|k: int| 0 <= k < t.len() && t[k] == seq_max(t);
        assert(s[j] == t[j]);
        assert(s[k] == t[k]);
        let last = s.len() - 1;
        if (s.last() as int) < seq_min(t) {
            assert(s[last] == seq_min(s));
        } else {
            assert(s[j] == seq_min(s));
        }
        if (s.last() as int) > seq_max(t) {
            assert(s[last] == seq_max(s));
        } else {
            assert(s[k] == seq_max(s));
        }
    }
}

/// A laxity normalized to the priority scale: `(l - min) / range * 5`.
pub open spec fn normalized_laxity(l: int, lo: int, range: int) -> int {
    (l - lo) * PRIORITY_LEVELS / range
}

/// Magnitude bound under which laxity arithmetic stays within `i128`.
pub open spec fn laxity_in_range(l: int) -> bool {
    -0x10_0000_0000_0000_0000_0000_0000int <= l <= 0x10_0000_0000_0000_0000_0000_0000int
}

/// Normalizes laxities to `[0, 5]`; when all laxities coincide every task
/// gets the middle of the scale (2.5).
pub fn normalize_laxities(laxities: &[i128]) -> (r: Vec<i64>)
    requires
        forall|i: int| 0 <= i < laxities@.len() ==> laxity_in_range(laxities@[i] as int),
    ensures
        r@.len() == laxities@.len(),
        forall|i: int| 0 <= i < r@.len() ==> 0 <= #[trigger] r@[i] <= PRIORITY_LEVELS,
        laxities@.len() > 0 && seq_max(laxities@) == seq_min(laxities@) ==>
            forall|i: int| 0 <= i < r@.len() ==> r@[i] == PRIORITY_LEVELS / 2,
        laxities@.len() > 0 && seq_max(laxities@) != seq_min(laxities@) ==>
            forall|i: int| 0 <= i < r@.len() ==> r@[i] == normalized_laxity(
                laxities@[i] as int, seq_min(laxities@), seq_max(laxities@) - seq_min(laxities@)),
        forall|i: int, j: int| 0 <= i < r@.len() && 0 <= j < r@.len() && laxities@[i] <= laxities@[j]
            ==> #[trigger] r@[i] <= #[trigger] r@[j],
{
    let n = laxities.len();
    if n == 0 {
        return Vec::new();
    }
    let mut min_l: i128 = laxities[0];
    let mut max_l: i128 = laxities[0];
    let mut i: usize = 1;
    while i < n
        invariant
            0 < i <= n,
            n == laxities@.len(),
            min_l == seq_min(laxities@.take(i as int)),
            max_l == seq_max(laxities@.take(i as int)),
        decreases n - i,
    {
        assert(laxities@.take(i as int + 1).drop_last() =~= laxities@.take(i as int));
        if laxities[i] < min_l {
            min_l = laxities[i];
        }
        if laxities[i] > max_l {
            max_l = laxities[i];
        }
        i = i + 1;
    }
    assert(laxities@.take(n as int) =~= laxities@);
    proof {
        lemma_seq_min_max_bounds(laxities@);
        let j = choose|j: int| 0 <= j < laxities@.len() && laxities@[j] == seq_min(laxities@);
        let k = choose|k: int| 0 <= k < laxities@.len() && laxities@[k] == seq_max(laxities@);
        assert(laxity_in_range(laxities@[j] as int));
        assert(laxity_in_range(laxities@[k] as int));
    }
    let range: i128 = max_l - min_l;
    let mut out: Vec<i64> = Vec::new();
    if range == 0 {
        let mut k: usize = 0;
        while k < n
            invariant
                k <= n,
                out@.len() == k,
                forall|j: int| 0 <= j < k ==> out@[j] == PRIORITY_LEVELS / 2,
            decreases n - k,
        {
            out.push(PRIORITY_LEVELS / 2);
            k = k + 1;
        }
        return out;
    }
    let mut k: usize = 0;
    while k < n
        invariant
            k <= n,
            n == laxities@.len(),
            0 < range,
            range == seq_max(laxities@) - seq_min(laxities@),
            min_l == seq_min(laxities@),
            forall|j: int| 0 <= j < n ==> min_l <= #[trigger] laxities@[j] <= max_l,
            max_l == seq_max(laxities@),
            forall|j: int| 0 <= j < n ==> laxity_in_range(laxities@[j] as int),
            laxity_in_range(min_l as int),
            laxity_in_range(max_l as int),
            out@.len() == k,
            forall|j: int| 0 <= j < k ==> 0 <= #[trigger] out@[j] <= PRIORITY_LEVELS,
            forall|j: int| 0 <= j < k ==> out@[j] == normalized_laxity(
                laxities@[j] as int, seq_min(laxities@), seq_max(laxities@) - seq_min(laxities@)),
        decreases n - k,
    {
        let diff: i128 = laxities[k] - min_l;
        proof {
            assert(0 <= diff * PRIORITY_LEVELS <= range * PRIORITY_LEVELS) by (nonlinear_arith)
                requires 0 <= diff <= range;
            assert(range * PRIORITY_LEVELS <= 0x100_0000_0000_0000_0000_0000_0000int * PRIORITY_LEVELS)
                by (nonlinear_arith)
                requires range <= 0x100_0000_0000_0000_0000_0000_0000int;
            vstd::arithmetic::div_mod::lemma_div_pos_is_pos(diff * PRIORITY_LEVELS, range as int);
            vstd::arithmetic::div_mod::lemma_div_is_ordered(diff * PRIORITY_LEVELS, range * PRIORITY_LEVELS, range as int);
            vstd::arithmetic::div_mod::lemma_div_multiples_vanish(PRIORITY_LEVELS as int, range as int);
            assert(range * PRIORITY_LEVELS == PRIORITY_LEVELS * range) by (nonlinear_arith);
        }
        let v: i128 = (diff * PRIORITY_LEVELS as i128) / range;
        out.push(v as i64);
        k = k + 1;
    }
    proof {
        assert forall|i: int, j: int| 0 <= i < out@.len() && 0 <= j < out@.len() && laxities@[i] <= laxities@[j]
            implies #[trigger] out@[i] <= #[trigger] out@[j] by {
            lemma_normalized_laxity_monotone(laxities@[i] as int, laxities@[j] as int, min_l as int, range as int);
        }
    }
    out
}

/// Normalization keeps the order of laxities.
proof fn lemma_normalized_laxity_monotone(a: int, b: int, lo: int, range: int)
    requires
        lo <= a <= b,
        range > 0,
    ensures
        normalized_laxity(a, lo, range) <= normalized_laxity(b, lo, range),
{
    assert((a - lo) * PRIORITY_LEVELS <= (b - lo) * PRIORITY_LEVELS) by (nonlinear_arith)
        requires lo <= a <= b;
    vstd::arithmetic::div_mod::lemma_div_is_ordered((a - lo) * PRIORITY_LEVELS, (b - lo) * PRIORITY_LEVELS, range);
}

/// Shifting every laxity by the same amount shifts the least and greatest
/// by it too, and leaves every normalized laxity as it was.
pub proof fn lemma_normalization_shift_invariant(l1: Seq<i128>, l2: Seq<i128>, c: int)
    requires
        l1.len() > 0,
        l2.len() == l1.len(),
        forall|i: int| 0 <= i < l1.len() ==> l2[i] == l1[i] + c,
    ensures
        seq_min(l2) == seq_min(l1) + c,
        seq_max(l2) == seq_max(l1) + c,
        forall|i: int| 0 <= i < l1.len() ==> normalized_laxity(l2[i] as int, seq_min(l2), seq_max(l2) - seq_min(l2))
            == normalized_laxity(l1[i] as int, seq_min(l1), seq_max(l1) - seq_min(l1)),
    decreases l1.len(),
{
    if l1.len() > 1 {
        let p1 = l1.drop_last();
        let p2 = l2.drop_last();
        assert forall|i: int| 0 <= i < p1.len() implies p2[i] == p1[i] + c by {
            assert(p1[i] == l1[i] && p2[i] == l2[i]);
        }
        lemma_normalization_shift_invariant(p1, p2, c);
        assert(l2.last() == l2[l2.len() - 1] && l1.last() == l1[l1.len() - 1]);
    } else {
        assert(l2[0] == l1[0] + c);
    }
    assert forall|i: int| 0 <= i < l1.len() implies normalized_laxity(l2[i] as int, seq_min(l2), seq_max(l2) - seq_min(l2))
        == normalized_laxity(l1[i] as int, seq_min(l1), seq_max(l1) - seq_min(l1)) by {
        assert(l2[i] as int - seq_min(l2) == l1[i] as int - seq_min(l1));
    }
}

/// When the laxities differ, normalization sends the least of them to 0 and
/// the greatest to `PRIORITY_LEVELS` (5), and both occur among them.
pub proof fn lemma_normalized_laxity_endpoints(laxities: Seq<i128>)
    requires
        laxities.len() > 0,
        seq_max(laxities) != seq_min(laxities),
    ensures
        exists|i: int| 0 <= i < laxities.len() && laxities[i] == seq_min(laxities),
        exists|i: int| 0 <= i < laxities.len() && laxities[i] == seq_max(laxities),
        normalized_laxity(seq_min(laxities), seq_min(laxities), seq_max(laxities) - seq_min(laxities)) == 0,
        normalized_laxity(seq_max(laxities), seq_min(laxities), seq_max(laxities) - seq_min(laxities))
            == PRIORITY_LEVELS,
{
    lemma_seq_min_max_bounds(laxities);
    let range = seq_max(laxities) - seq_min(laxities);
    assert(range > 0);
    vstd::arithmetic::div_mod::lemma_div_multiples_vanish(PRIORITY_LEVELS as int, range);
    assert(range * PRIORITY_LEVELS == PRIORITY_LEVELS * range) by (nonlinear_arith);
    assert(0 * PRIORITY_LEVELS / range == 0);
}

/// Floor division by a positive divisor.
fn floor_div(a: i128, b: i128) -> (q: i128)
    requires
        0 < b <= 0x10_0000_0000_0000_0000_0000_0000i128,
        -0x4000_0000_0000_0000_0000_0000_0000_0000i128 <= a,
    ensures
        q == a / b,
{
    if a >= 0 {
        a / b
    } else {
        let m: i128 = -a;
        proof {
        }
        let q: i128 = (m + b - 1) / b;
        proof {
            let r = (m + b - 1) as int % (b as int);
            vstd::arithmetic::div_mod::lemma_fundamental_div_mod(m + b - 1, b as int);
            assert(a == (-q) * b + (b - 1 - r)) by (nonlinear_arith)
                requires m == -a, m + b - 1 == b * q + r;
            vstd::arithmetic::div_mod::lemma_fundamental_div_mod_converse_div(a as int, b as int, -q, b - 1 - r);
        }
        -q
    }
}

/// R = theta * L_norm + priority, in fixed point (rounded down).
pub open spec fn spec_relaxation(theta_val: int, l_norm: int, priority: int) -> int {
    theta_val * l_norm / (FIXED_ONE as int) + priority
}

pub fn relaxation(theta_val: i64, l_norm: i64, priority: i64) -> (r: i128)
    ensures
        r == spec_relaxation(theta_val as int, l_norm as int, priority as int),
{
    proof {
        assert(-0x4000_0000_0000_0000_0000_0000_0000_0000int <= theta_val * l_norm
            <= 0x4000_0000_0000_0000_0000_0000_0000_0000int) by (nonlinear_arith)
            requires
                -0x8000_0000_0000_0000int <= theta_val < 0x8000_0000_0000_0000int,
                -0x8000_0000_0000_0000int <= l_norm < 0x8000_0000_0000_0000int;
    }
    let prod: i128 = theta_val as i128 * l_norm as i128;
    let q = floor_div(prod, FIXED_ONE as i128);
    proof {
        vstd::arithmetic::div_mod::lemma_div_is_ordered(prod as int, 0x4000_0000_0000_0000_0000_0000_0000_0000int, FIXED_ONE as int);
        vstd::arithmetic::div_mod::lemma_div_is_ordered(-0x4000_0000_0000_0000_0000_0000_0000_0000int, prod as int, FIXED_ONE as int);
    }
    q + priority as i128
}

} // verus!
