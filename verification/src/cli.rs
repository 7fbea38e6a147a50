//! Command-line parameters: what the program runs, and parsing its flags.

use vstd::prelude::*;
use crate::task::{Weather, FIXED_ONE, weather_name};
use crate::scheduler::{SchedulerKind, kind_named, normalized_name, unknown_scheduler_message};
use crate::simulator::SimConfig;
use crate::generator::DEFAULT_TASKS_PER_ROUND;
use crate::text::{ascii_lowercase, to_ascii_lowercase, same_text};

verus! {

#[derive(Debug, Clone, Copy)]
pub struct RunParams {
    pub scheduler: SchedulerKind,
    pub num_cores: usize,
    pub weather: Weather,
    /// Deadline tightness, in fixed point.
    pub tightness: i64,
    /// Target task-set utilization, in fixed point.
    pub target_utilization: i64,
    /// Context-switch cost in ticks, in fixed point.
    pub context_switch_cost: i64,
    /// Critical coefficient `C`, in fixed point.
    pub critical_coefficient: i64,
    pub task_count: usize,
    /// Seed of the random task-set generator.
    pub seed: u64,
}

pub open spec fn default_run_params() -> RunParams {
    RunParams {
        scheduler: SchedulerKind::Proposed,
        num_cores: 2,
        weather: Weather::Sunny,
        tightness: 1_000_000,
        target_utilization: 1_500_000,
        context_switch_cost: 1_000_000,
        critical_coefficient: 5_000_000,
        task_count: DEFAULT_TASKS_PER_ROUND,
        seed: 42,
    }
}

impl Default for RunParams {
    fn default() -> (p: Self)
        ensures
            p == default_run_params(),
    {
        RunParams {
            scheduler: SchedulerKind::default(),
            num_cores: 2,
            weather: Weather::Sunny,
            tightness: FIXED_ONE,
            target_utilization: 3 * FIXED_ONE / 2,
            context_switch_cost: FIXED_ONE,
            critical_coefficient: 5 * FIXED_ONE,
            task_count: DEFAULT_TASKS_PER_ROUND,
            seed: 42,
        }
    }
}

impl RunParams {
    pub fn to_sim_config(&self) -> (c: SimConfig)
        ensures
            c.num_cores == self.num_cores,
            c.weather == self.weather,
            c.tightness == self.tightness,
            c.context_switch_cost == self.context_switch_cost,
            c.critical_coefficient == self.critical_coefficient,
    {
        SimConfig {
            num_cores: self.num_cores,
            weather: self.weather,
            tightness: self.tightness,
            context_switch_cost: self.context_switch_cost,
            critical_coefficient: self.critical_coefficient,
        }
    }
}

#[derive(Debug, Clone, Copy)]
pub struct SweepParams {
    pub scheduler: SchedulerKind,
    pub runs_per_config: usize,
}

pub open spec fn default_sweep_params() -> SweepParams {
    SweepParams { scheduler: SchedulerKind::Proposed, runs_per_config: 20 }
}

impl Default for SweepParams {
    fn default() -> (p: Self)
        ensures
            p == default_sweep_params(),
    {
        SweepParams { scheduler: SchedulerKind::default(), runs_per_config: 20 }
    }
}

/// What the program is asked to do. `Generate` (write one generated task
/// set to a CSV file) is handled by the program but no subcommand selects
/// it.
pub enum Command {
    Help,
    Demo(RunParams),
    Sweep(SweepParams),
    Generate(RunParams),
    Both(RunParams, SweepParams),
}

// ---------------------------------------------------------------------
// Numbers
// ---------------------------------------------------------------------

pub open spec fn is_digit(c: char) -> bool {
    '0' <= c && c <= '9'
}

pub open spec fn digit_value(c: char) -> int {
    (c as int) - ('0' as int)
}

pub open spec fn all_digits(ds: Seq<char>) -> bool {
    forall|i: int| 0 <= i < ds.len() ==> is_digit(#[trigger] ds[i])
}

/// The number a string of decimal digits writes.
pub open spec fn digits_value(ds: Seq<char>) -> int
    decreases ds.len(),
{
    if ds.len() == 0 {
        0
    } else {
        digits_value(ds.drop_last()) * 10 + digit_value(ds.last())
    }
}

/// `str::parse::<usize>`: an optional `+`, then at least one decimal digit,
/// for a value that fits.
pub open spec fn spec_parse_usize(s: Seq<char>) -> Option<usize> {
    let ds = if s.len() > 0 && s[0] == '+' { s.drop_first() } else { s };
    if ds.len() > 0 && all_digits(ds) && digits_value(ds) <= usize::MAX {
        Some(digits_value(ds) as usize)
    } else {
        None
    }
}

/// `str::parse::<u64>`: as `spec_parse_usize`, for a value that fits in
/// `u64`.
pub open spec fn spec_parse_u64(s: Seq<char>) -> Option<u64> {
    let ds = if s.len() > 0 && s[0] == '+' { s.drop_first() } else { s };
    if ds.len() > 0 && all_digits(ds) && digits_value(ds) <= u64::MAX {
        Some(digits_value(ds) as u64)
    } else {
        None
    }
}

proof fn lemma_digits_value_push(ds: Seq<char>, c: char)
    requires
        all_digits(ds),
        is_digit(c),
    ensures
        digits_value(ds.push(c)) == digits_value(ds) * 10 + digit_value(c),
        digits_value(ds.push(c)) >= digits_value(ds),
        digits_value(ds) >= 0,
{
    assert(ds.push(c).drop_last() =~= ds);
    lemma_digits_value_nonneg(ds);
}

proof fn lemma_digits_value_nonneg(ds: Seq<char>)
    requires
        all_digits(ds),
    ensures
        digits_value(ds) >= 0,
    decreases ds.len(),
{
    if ds.len() > 0 {
        assert(all_digits(ds.drop_last())) by {
            assert forall|i: int| 0 <= i < ds.drop_last().len() implies is_digit(#[trigger] ds.drop_last()[i]) by {
                assert(ds.drop_last()[i] == ds[i]);
            }
        }
        lemma_digits_value_nonneg(ds.drop_last());
        assert(is_digit(ds[ds.len() - 1]));
    }
}

/// `invalid value '<value>' for <flag>`
pub open spec fn invalid_value_message(value: Seq<char>, flag: Seq<char>) -> Seq<char> {
    "invalid value '"@ + value + "' for "@ + flag
}

fn invalid_value(value: &str, flag: &str) -> (e: String)
    ensures
        e@ == invalid_value_message(value@, flag@),
{
    let mut e = String::from_str("invalid value '");
    e.append(value);
    e.append("' for ");
    e.append(flag);
    e
}

/// Parses a count flag's value as `usize`.
pub fn parse_num(value: &str, flag: &str) -> (r: Result<usize, String>)
    ensures
        spec_parse_usize(value@) matches Some(v) ==> r == Ok::<usize, String>(v),
        spec_parse_usize(value@) is None ==> (r matches Err(e) && e@ == invalid_value_message(value@, flag@)),
{
    let n = value.unicode_len();
    let start: usize = if n > 0 && value.get_char(0) == '+' { 1 } else { 0 };
    proof {
        if start == 1 {
            assert(value@.skip(1) =~= value@.drop_first());
        } else {
            assert(value@.skip(0) =~= value@);
        }
    }
    if start == n {
        return Err(invalid_value(value, flag));
    }
    let (ok, v) = scan_digits(value, start, n, usize::MAX as u128);
    assert(value@.subrange(start as int, n as int) =~= value@.skip(start as int));
    if ok && v <= usize::MAX as u128 {
        Ok(v as usize)
    } else {
        Err(invalid_value(value, flag))
    }
}

/// Parses a seed flag's value as `u64`.
fn parse_seed(value: &str, flag: &str) -> (r: Result<u64, String>)
    ensures
        spec_parse_u64(value@) matches Some(v) ==> r == Ok::<u64, String>(v),
        spec_parse_u64(value@) is None ==> (r matches Err(e) && e@ == invalid_value_message(value@, flag@)),
{
    let n = value.unicode_len();
    let start: usize = if n > 0 && value.get_char(0) == '+' { 1 } else { 0 };
    proof {
        if start == 1 {
            assert(value@.skip(1) =~= value@.drop_first());
        } else {
            assert(value@.skip(0) =~= value@);
        }
    }
    if start == n {
        return Err(invalid_value(value, flag));
    }
    let (ok, v) = scan_digits(value, start, n, u64::MAX as u128);
    assert(value@.subrange(start as int, n as int) =~= value@.skip(start as int));
    if ok && v <= u64::MAX as u128 {
        Ok(v as u64)
    } else {
        Err(invalid_value(value, flag))
    }
}

/// The value after flag `i`, or the error for a flag without one.
pub open spec fn flag_value(args: Seq<Seq<char>>, i: int) -> Result<Seq<char>, Seq<char>> {
    if i + 1 < args.len() {
        Ok(args[i + 1])
    } else {
        Err("flag '"@ + args[i] + "' expects a value"@)
    }
}

/// The views of the arguments.
pub open spec fn arg_views(args: Seq<String>) -> Seq<Seq<char>> {
    args.map_values(|a: String| a@)
}

pub fn next_flag_value<'a>(args: &'a [String], i: usize) -> (r: Result<&'a str, String>)
    requires
        i < args@.len(),
    ensures
        flag_value(arg_views(args@), i as int) matches Ok(v) ==> (r matches Ok(s) && s@ == v),
        flag_value(arg_views(args@), i as int) matches Err(m) ==> (r matches Err(e) && e@ == m),
{
    if i < args.len() - 1 {
        Ok(args[i + 1].as_str())
    } else {
        let mut e = String::from_str("flag '");
        e.append(args[i].as_str());
        e.append("' expects a value");
        Err(e)
    }
}

/// The weather a lowercase name stands for.
pub open spec fn weather_named(n: Seq<char>) -> Option<Weather> {
    if n == weather_name(Weather::Sunny) {
        Some(Weather::Sunny)
    } else if n == weather_name(Weather::Rainy) {
        Some(Weather::Rainy)
    } else if n == weather_name(Weather::Snowy) {
        Some(Weather::Snowy)
    } else {
        None
    }
}

pub open spec fn unknown_weather_message(n: Seq<char>) -> Seq<char> {
    "unknown weather '"@ + n + "' (expected sunny|rainy|snowy)"@
}

/// The name of every weather condition parses back to it.
pub proof fn lemma_weather_name_round_trip(w: Weather)
    ensures
        weather_named(ascii_lowercase(weather_name(w))) == Some(w),
{
    let n = weather_name(w);
    assert(ascii_lowercase(n) =~= n);
}

pub fn parse_weather(s: &str) -> (r: Result<Weather, String>)
    ensures
        weather_named(ascii_lowercase(s@)) matches Some(w) ==> r == Ok::<Weather, String>(w),
        weather_named(ascii_lowercase(s@)) is None ==> (r matches Err(e)
            && e@ == unknown_weather_message(ascii_lowercase(s@))),
{
    let lower = to_ascii_lowercase(s);
    let sunny = String::from_str(Weather::Sunny.as_str());
    let rainy = String::from_str(Weather::Rainy.as_str());
    let snowy = String::from_str(Weather::Snowy.as_str());
    if lower == sunny {
        Ok(Weather::Sunny)
    } else if lower == rainy {
        Ok(Weather::Rainy)
    } else if lower == snowy {
        Ok(Weather::Snowy)
    } else {
        let mut e = String::from_str("unknown weather '");
        e.append(lower.as_str());
        e.append("' (expected sunny|rainy|snowy)");
        Err(e)
    }
}

// ---------------------------------------------------------------------
// Decimal numbers in fixed point
// ---------------------------------------------------------------------

/// Position of the first `.` in `s`, or -1.
pub open spec fn first_dot(s: Seq<char>) -> int
    decreases s.len(),
{
    if s.len() == 0 {
        -1
    } else if first_dot(s.drop_last()) >= 0 {
        first_dot(s.drop_last())
    } else if s.last() == '.' {
        s.len() - 1
    } else {
        -1
    }
}

/// The first six fractional digits, padded with zeros.
pub open spec fn pad6(f: Seq<char>) -> Seq<char> {
    Seq::new(6, |j: int| if j < f.len() { f[j] } else { '0' })
}

/// The fractional digits of a decimal, in millionths (digits beyond the
/// sixth are cut off).
pub open spec fn fraction_units(f: Seq<char>) -> int {
    digits_value(pad6(f))
}

/// A decimal number in fixed point: an optional sign, digits with at most
/// one `.`, at least one digit; digits beyond the sixth decimal are cut off.
pub open spec fn spec_parse_fixed(s: Seq<char>) -> Option<i64> {
    let neg = s.len() > 0 && s[0] == '-';
    let body = if s.len() > 0 && (s[0] == '+' || s[0] == '-') { s.drop_first() } else { s };
    let d = first_dot(body);
    let int_part = if d >= 0 { body.take(d) } else { body };
    let frac = if d >= 0 { body.skip(d + 1) } else { Seq::<char>::empty() };
    let magnitude = digits_value(int_part) * FIXED_ONE + fraction_units(frac);
    let value = if neg { -magnitude } else { magnitude };
    if all_digits(int_part) && all_digits(frac) && int_part.len() + frac.len() > 0
        && i64::MIN <= value <= i64::MAX {
        Some(value as i64)
    } else {
        None
    }
}

/// Scans `s[a..b]`: whether it is all digits, and its value capped at
/// `cap + 1`.
fn scan_digits(s: &str, a: usize, b: usize, cap: u128) -> (r: (bool, u128))
    requires
        a <= b <= s@.len(),
        cap < 0x1_0000_0000_0000_0000_0000_0000u128,
    ensures
        r.0 == all_digits(s@.subrange(a as int, b as int)),
        r.0 ==> r.1 == (if digits_value(s@.subrange(a as int, b as int)) <= cap {
            digits_value(s@.subrange(a as int, b as int))
        } else {
            cap + 1
        }),
{
    let mut acc: u128 = 0;
    let mut i: usize = a;
    while i < b
        invariant
            a <= i <= b <= s@.len(),
            cap < 0x1_0000_0000_0000_0000_0000_0000u128,
            all_digits(s@.subrange(a as int, i as int)),
            acc == (if digits_value(s@.subrange(a as int, i as int)) <= cap {
                digits_value(s@.subrange(a as int, i as int))
            } else {
                cap + 1
            }),
        decreases b - i,
    {
        let c = s.get_char(i);
        let ghost pre = s@.subrange(a as int, i as int);
        if !('0' <= c && c <= '9') {
            proof {
                assert(s@.subrange(a as int, b as int)[i - a] == c);
            }
            return (false, 0);
        }
        proof {
            assert(s@.subrange(a as int, i as int + 1) =~= pre.push(c));
            lemma_digits_value_push(pre, c);
            assert(all_digits(pre.push(c))) by {
                assert forall|q: int| 0 <= q < pre.push(c).len() implies is_digit(#[trigger] pre.push(c)[q]) by {
                    if q < pre.len() {
                        assert(pre.push(c)[q] == pre[q]);
                    }
                }
            }
        }
        if acc <= cap {
            acc = acc * 10 + (c as u32 - '0' as u32) as u128;
            if acc > cap {
                acc = cap + 1;
            }
        }
        i = i + 1;
    }
    (true, acc)
}

pub open spec fn pow10_len(e: nat) -> int
    decreases e,
{
    if e == 0 { 1 } else { 10 * pow10_len((e - 1) as nat) }
}

/// Position of the first `.` in `s[start..]`, or the end.
fn find_dot(s: &str, start: usize) -> (d: usize)
    requires
        start <= s@.len(),
    ensures
        start <= d <= s@.len(),
        d < s@.len() ==> first_dot(s@.skip(start as int)) == d - start,
        d == s@.len() ==> first_dot(s@.skip(start as int)) == -1,
{
    let n = s.unicode_len();
    let ghost body = s@.skip(start as int);
    let mut d: usize = start;
    while d < n && s.get_char(d) != '.'
        invariant
            start <= d <= n == s@.len(),
            body == s@.skip(start as int),
            first_dot(body.take(d - start)) == -1,
        decreases n - d,
    {
        proof {
            assert(body.take(d - start + 1).drop_last() =~= body.take(d - start));
            assert(body.take(d - start + 1).last() == s@[d as int]);
        }
        d = d + 1;
    }
    proof {
        if d < n {
            assert(body.take(d - start + 1).drop_last() =~= body.take(d - start));
            assert(body.take(d - start + 1).last() == '.');
            assert(first_dot(body.take(d - start + 1)) == d - start);
            lemma_first_dot_prefix(body, d - start + 1);
        } else {
            assert(body.take(d - start) =~= body);
        }
    }
    d
}

/// The first six digits of `s[a..b]`, padded with zeros, as a number.
fn fraction_digits(s: &str, a: usize, b: usize) -> (units: u128)
    requires
        a <= b <= s@.len(),
        all_digits(s@.subrange(a as int, b as int)),
    ensures
        units == fraction_units(s@.subrange(a as int, b as int)),
        units < 1_000_000,
{
    let ghost f = s@.subrange(a as int, b as int);
    let ghost p = pad6(f);
    assert(all_digits(p)) by {
        assert forall|j: int| 0 <= j < p.len() implies is_digit(#[trigger] p[j]) by {
            if j < f.len() {
                assert(is_digit(f[j]));
            }
        }
    }
    let mut units: u128 = 0;
    let mut j: usize = 0;
    while j < 6
        invariant
            a <= b <= s@.len(),
            f == s@.subrange(a as int, b as int),
            p == pad6(f),
            all_digits(p),
            j <= 6,
            units == digits_value(p.take(j as int)),
            units < pow10_len(j as nat),
            pow10_len(j as nat) <= 100_000 || j == 6,
            pow10_len(j as nat) <= 1_000_000,
        decreases 6 - j,
    {
        let c: char = if j < b - a { s.get_char(a + j) } else { '0' };
        proof {
            assert(p[j as int] == c);
            assert(p.take(j as int + 1) =~= p.take(j as int).push(c));
            assert(all_digits(p.take(j as int))) by {
                assert forall|q: int| 0 <= q < j implies is_digit(#[trigger] p.take(j as int)[q]) by {
                    assert(p.take(j as int)[q] == p[q]);
                }
            }
            lemma_digits_value_push(p.take(j as int), c);
            assert(units * 10 + digit_value(c) < 10 * pow10_len(j as nat)) by (nonlinear_arith)
                requires units < pow10_len(j as nat), 0 <= digit_value(c) <= 9;
            assert(pow10_len((j + 1) as nat) <= 100_000 || j + 1 == 6) by {
                reveal_with_fuel(pow10_len, 7);
                if j == 0 {} else if j == 1 {} else if j == 2 {} else if j == 3 {} else if j == 4 {} else {}
            }
        }
        units = units * 10 + (c as u32 - '0' as u32) as u128;
        j = j + 1;
    }
    assert(p.take(6) =~= p);
    assert(pow10_len(6) == 1_000_000) by {
        reveal_with_fuel(pow10_len, 7);
    }
    units
}

/// Parses a decimal flag value into fixed point.
pub fn parse_fixed(value: &str, flag: &str) -> (r: Result<i64, String>)
    ensures
        spec_parse_fixed(value@) matches Some(v) ==> r == Ok::<i64, String>(v),
        spec_parse_fixed(value@) is None ==> (r matches Err(e) && e@ == invalid_value_message(value@, flag@)),
{
    let n = value.unicode_len();
    let neg = n > 0 && value.get_char(0) == '-';
    let start: usize = if n > 0 && (value.get_char(0) == '+' || value.get_char(0) == '-') { 1 } else { 0 };
    let ghost body = value@.skip(start as int);
    proof {
        if start == 1 {
            assert(body =~= value@.drop_first());
        } else {
            assert(body =~= value@);
        }
    }
    let d = find_dot(value, start);
    let frac_start: usize = if d < n { d + 1 } else { n };
    proof {
        if d < n {
            assert(value@.subrange(start as int, d as int) =~= body.take(d - start));
            assert(value@.subrange(frac_start as int, n as int) =~= body.skip(d - start + 1));
        } else {
            assert(value@.subrange(start as int, d as int) =~= body);
            assert(value@.subrange(frac_start as int, n as int) =~= Seq::<char>::empty());
        }
    }
    if (d - start) + (n - frac_start) == 0 {
        return Err(invalid_value(value, flag));
    }
    let cap: u128 = 0x8000_0000_0000_0000u128 / (FIXED_ONE as u128) + 1;
    let (int_ok, int_val) = scan_digits(value, start, d, cap);
    let (frac_ok, _f) = scan_digits(value, frac_start, n, 0);
    if !int_ok || !frac_ok {
        return Err(invalid_value(value, flag));
    }
    let frac_units = fraction_digits(value, frac_start, n);
    let magnitude: u128 = int_val * (FIXED_ONE as u128) + frac_units;
    proof {
        let ip = value@.subrange(start as int, d as int);
        lemma_digits_value_nonneg(ip);
        if digits_value(ip) > cap {
            assert(digits_value(ip) * FIXED_ONE > 0x8000_0000_0000_0000int) by (nonlinear_arith)
                requires digits_value(ip) > cap, cap == 0x8000_0000_0000_0000int / 1_000_000 + 1;
        } else {
            assert(magnitude == digits_value(ip) * FIXED_ONE + fraction_units(value@.subrange(frac_start as int, n as int)));
        }
    }
    if neg {
        if magnitude > 0x8000_0000_0000_0000u128 {
            return Err(invalid_value(value, flag));
        }
        Ok((0i128 - magnitude as i128) as i64)
    } else {
        if magnitude > 0x7fff_ffff_ffff_ffffu128 {
            return Err(invalid_value(value, flag));
        }
        Ok(magnitude as i64)
    }
}

proof fn lemma_first_dot_prefix(s: Seq<char>, m: int)
    requires
        0 <= m <= s.len(),
        first_dot(s.take(m)) >= 0,
    ensures
        first_dot(s) == first_dot(s.take(m)),
    decreases s.len() - m,
{
    if m < s.len() {
        assert(s.take(m + 1).drop_last() =~= s.take(m));
        lemma_first_dot_prefix(s, m + 1);
    } else {
        assert(s.take(m) =~= s);
    }
}

// ---------------------------------------------------------------------
// Flags and subcommands
// ---------------------------------------------------------------------

/// `unknown flag '<flag>' for '<cmd>' (try --help)`
pub open spec fn unknown_flag_message(flag: Seq<char>, cmd: Seq<char>) -> Seq<char> {
    "unknown flag '"@ + flag + "' for '"@ + cmd + "' (try --help)"@
}

/// The sweep parameters that `args[i..]` set over `p`, or the first error.
pub open spec fn sweep_params_from(args: Seq<Seq<char>>, i: int, p: SweepParams) -> Result<SweepParams, Seq<char>>
    decreases args.len() - i,
{
    if i < 0 || i >= args.len() {
        Ok(p)
    } else {
        match flag_value(args, i) {
            Err(m) => Err(m),
            Ok(value) => {
                let flag = args[i];
                if flag == "--scheduler"@ {
                    match kind_named(normalized_name(value)) {
                        Some(k) => sweep_params_from(args, i + 2, SweepParams { scheduler: k, ..p }),
                        None => Err(unknown_scheduler_message(normalized_name(value))),
                    }
                } else if flag == "--runs"@ {
                    match spec_parse_usize(value) {
                        Some(v) => sweep_params_from(args, i + 2, SweepParams { runs_per_config: v, ..p }),
                        None => Err(invalid_value_message(value, "--runs"@)),
                    }
                } else {
                    Err(unknown_flag_message(flag, "sweep"@))
                }
            },
        }
    }
}

/// The executable result agrees with the mathematical one.
pub open spec fn same_outcome<T>(r: Result<T, String>, s: Result<T, Seq<char>>) -> bool {
    match s {
        Ok(v) => r == Ok::<T, String>(v),
        Err(m) => r matches Err(e) && e@ == m,
    }
}

pub fn parse_sweep_params(args: &[String]) -> (r: Result<SweepParams, String>)
    ensures
        same_outcome(r, sweep_params_from(arg_views(args@), 0, default_sweep_params())),
{
    sweep_params_at(args, 0)
}

/// Parses the sweep flags of `args[start..]`.
fn sweep_params_at(args: &[String], start: usize) -> (r: Result<SweepParams, String>)
    requires
        start <= args@.len(),
    ensures
        same_outcome(r, sweep_params_from(arg_views(args@), start as int, default_sweep_params())),
{
    let ghost av = arg_views(args@);
    let mut p = SweepParams::default();
    let mut i: usize = start;
    while i < args.len()
        invariant
            start <= i <= args@.len(),
            av == arg_views(args@),
            sweep_params_from(av, start as int, default_sweep_params()) == sweep_params_from(av, i as int, p),
        decreases args@.len() - i,
    {
        let value = match next_flag_value(args, i) {
            Ok(v) => v,
            Err(e) => return Err(e),
        };
        let flag = args[i].as_str();
        assert(av[i as int] == flag@);
        if same_text(flag, "--scheduler") {
            match SchedulerKind::parse(value) {
                Ok(k) => p.scheduler = k,
                Err(e) => return Err(e),
            }
        } else if same_text(flag, "--runs") {
            match parse_num(value, "--runs") {
                Ok(v) => p.runs_per_config = v,
                Err(e) => return Err(e),
            }
        } else {
            let mut e = String::from_str("unknown flag '");
            e.append(flag);
            e.append("' for '");
            e.append("sweep");
            e.append("' (try --help)");
            return Err(e);
        }
        i = i + 2;
    }
    Ok(p)
}

/// The run parameters that `args[i..]` set over `p`, or the first error.
pub open spec fn run_params_from(args: Seq<Seq<char>>, i: int, p: RunParams) -> Result<RunParams, Seq<char>>
    decreases args.len() - i,
{
    if i < 0 || i >= args.len() {
        Ok(p)
    } else {
        match flag_value(args, i) {
            Err(m) => Err(m),
            Ok(value) => {
                let flag = args[i];
                if flag == "--scheduler"@ {
                    match kind_named(normalized_name(value)) {
                        Some(k) => run_params_from(args, i + 2, RunParams { scheduler: k, ..p }),
                        None => Err(unknown_scheduler_message(normalized_name(value))),
                    }
                } else if flag == "--cores"@ {
                    match spec_parse_usize(value) {
                        Some(v) => run_params_from(args, i + 2, RunParams { num_cores: v, ..p }),
                        None => Err(invalid_value_message(value, flag)),
                    }
                } else if flag == "--weather"@ {
                    match weather_named(ascii_lowercase(value)) {
                        Some(w) => run_params_from(args, i + 2, RunParams { weather: w, ..p }),
                        None => Err(unknown_weather_message(ascii_lowercase(value))),
                    }
                } else if flag == "--tightness"@ {
                    match spec_parse_fixed(value) {
                        Some(v) => run_params_from(args, i + 2, RunParams { tightness: v, ..p }),
                        None => Err(invalid_value_message(value, flag)),
                    }
                } else if flag == "--utilization"@ {
                    match spec_parse_fixed(value) {
                        Some(v) => run_params_from(args, i + 2, RunParams { target_utilization: v, ..p }),
                        None => Err(invalid_value_message(value, flag)),
                    }
                } else if flag == "--context-switch-cost"@ {
                    match spec_parse_fixed(value) {
                        Some(v) => run_params_from(args, i + 2, RunParams { context_switch_cost: v, ..p }),
                        None => Err(invalid_value_message(value, flag)),
                    }
                } else if flag == "--critical-coefficient"@ {
                    match spec_parse_fixed(value) {
                        Some(v) => run_params_from(args, i + 2, RunParams { critical_coefficient: v, ..p }),
                        None => Err(invalid_value_message(value, flag)),
                    }
                } else if flag == "--tasks"@ {
                    match spec_parse_usize(value) {
                        Some(v) => run_params_from(args, i + 2, RunParams { task_count: v, ..p }),
                        None => Err(invalid_value_message(value, flag)),
                    }
                } else if flag == "--seed"@ {
                    match spec_parse_u64(value) {
                        Some(v) => run_params_from(args, i + 2, RunParams { seed: v, ..p }),
                        None => Err(invalid_value_message(value, flag)),
                    }
                } else {
                    Err(unknown_flag_message(flag, "demo"@))
                }
            },
        }
    }
}

pub fn parse_run_params(args: &[String]) -> (r: Result<RunParams, String>)
    ensures
        same_outcome(r, run_params_from(arg_views(args@), 0, default_run_params())),
{
    run_params_at(args, 0)
}

/// Parses the demo flags of `args[start..]`.
fn run_params_at(args: &[String], start: usize) -> (r: Result<RunParams, String>)
    requires
        start <= args@.len(),
    ensures
        same_outcome(r, run_params_from(arg_views(args@), start as int, default_run_params())),
{
    let ghost av = arg_views(args@);
    let mut p = RunParams::default();
    let mut i: usize = start;
    while i < args.len()
        invariant
            start <= i <= args@.len(),
            av == arg_views(args@),
            run_params_from(av, start as int, default_run_params()) == run_params_from(av, i as int, p),
        decreases args@.len() - i,
    {
        let value = match next_flag_value(args, i) {
            Ok(v) => v,
            Err(e) => return Err(e),
        };
        let flag = args[i].as_str();
        assert(av[i as int] == flag@);
        if same_text(flag, "--scheduler") {
            match SchedulerKind::parse(value) {
                Ok(k) => p.scheduler = k,
                Err(e) => return Err(e),
            }
        } else if same_text(flag, "--cores") {
            match parse_num(value, flag) {
                Ok(v) => p.num_cores = v,
                Err(e) => return Err(e),
            }
        } else if same_text(flag, "--weather") {
            match parse_weather(value) {
                Ok(w) => p.weather = w,
                Err(e) => return Err(e),
            }
        } else if same_text(flag, "--tightness") {
            match parse_fixed(value, flag) {
                Ok(v) => p.tightness = v,
                Err(e) => return Err(e),
            }
        } else if same_text(flag, "--utilization") {
            match parse_fixed(value, flag) {
                Ok(v) => p.target_utilization = v,
                Err(e) => return Err(e),
            }
        } else if same_text(flag, "--context-switch-cost") {
            match parse_fixed(value, flag) {
                Ok(v) => p.context_switch_cost = v,
                Err(e) => return Err(e),
            }
        } else if same_text(flag, "--critical-coefficient") {
            match parse_fixed(value, flag) {
                Ok(v) => p.critical_coefficient = v,
                Err(e) => return Err(e),
            }
        } else if same_text(flag, "--tasks") {
            match parse_num(value, flag) {
                Ok(v) => p.task_count = v,
                Err(e) => return Err(e),
            }
        } else if same_text(flag, "--seed") {
            match parse_seed(value, flag) {
                Ok(v) => p.seed = v,
                Err(e) => return Err(e),
            }
        } else {
            let mut e = String::from_str("unknown flag '");
            e.append(flag);
            e.append("' for '");
            e.append("demo");
            e.append("' (try --help)");
            return Err(e);
        }
        i = i + 2;
    }
    Ok(p)
}

/// The command the arguments (after the program name) ask for.
pub open spec fn command_from(args: Seq<Seq<char>>) -> Result<Command, Seq<char>> {
    if args.len() == 0 {
        Ok(Command::Both(default_run_params(), default_sweep_params()))
    } else if args[0] == "-h"@ || args[0] == "--help"@ {
        Ok(Command::Help)
    } else if args[0] == "demo"@ {
        match run_params_from(args, 1, default_run_params()) {
            Ok(p) => Ok(Command::Demo(p)),
            Err(m) => Err(m),
        }
    } else if args[0] == "sweep"@ {
        match sweep_params_from(args, 1, default_sweep_params()) {
            Ok(p) => Ok(Command::Sweep(p)),
            Err(m) => Err(m),
        }
    } else {
        Err("unknown subcommand '"@ + args[0]
            + "' (expected 'demo', 'sweep', or no subcommand to run both; try --help)"@)
    }
}

/// Each demo flag sets its own parameter to the value it is given and leaves
/// every other parameter as it was.
pub proof fn lemma_demo_flag_sets_its_field(v: Seq<char>, p: RunParams)
    ensures
        spec_parse_usize(v) matches Some(x) ==> run_params_from(seq!["--cores"@, v], 0, p)
            == Ok::<RunParams, Seq<char>>(RunParams { num_cores: x, ..p }),
        spec_parse_fixed(v) matches Some(x) ==> run_params_from(seq!["--tightness"@, v], 0, p)
            == Ok::<RunParams, Seq<char>>(RunParams { tightness: x, ..p }),
        spec_parse_fixed(v) matches Some(x) ==> run_params_from(seq!["--utilization"@, v], 0, p)
            == Ok::<RunParams, Seq<char>>(RunParams { target_utilization: x, ..p }),
        spec_parse_fixed(v) matches Some(x) ==> run_params_from(seq!["--context-switch-cost"@, v], 0, p)
            == Ok::<RunParams, Seq<char>>(RunParams { context_switch_cost: x, ..p }),
        spec_parse_fixed(v) matches Some(x) ==> run_params_from(seq!["--critical-coefficient"@, v], 0, p)
            == Ok::<RunParams, Seq<char>>(RunParams { critical_coefficient: x, ..p }),
        spec_parse_usize(v) matches Some(x) ==> run_params_from(seq!["--tasks"@, v], 0, p)
            == Ok::<RunParams, Seq<char>>(RunParams { task_count: x, ..p }),
        spec_parse_u64(v) matches Some(x) ==> run_params_from(seq!["--seed"@, v], 0, p)
            == Ok::<RunParams, Seq<char>>(RunParams { seed: x, ..p }),
        kind_named(normalized_name(v)) matches Some(k) ==> run_params_from(seq!["--scheduler"@, v], 0, p)
            == Ok::<RunParams, Seq<char>>(RunParams { scheduler: k, ..p }),
        weather_named(ascii_lowercase(v)) matches Some(w) ==> run_params_from(seq!["--weather"@, v], 0, p)
            == Ok::<RunParams, Seq<char>>(RunParams { weather: w, ..p }),
{
    reveal_strlit("--scheduler");
    reveal_strlit("--cores");
    reveal_strlit("--weather");
    reveal_strlit("--tightness");
    reveal_strlit("--utilization");
    reveal_strlit("--context-switch-cost");
    reveal_strlit("--critical-coefficient");
    reveal_strlit("--tasks");
    reveal_strlit("--seed");
    if let Some(x) = kind_named(normalized_name(v)) {
        let q = RunParams { scheduler: x, ..p };
        lemma_single_flag_args(seq!["--scheduler"@, v], "--scheduler"@, v);
        assert(run_params_from(seq!["--scheduler"@, v], 2, q) == Ok::<RunParams, Seq<char>>(q));
    }
    if let Some(x) = spec_parse_usize(v) {
        let q = RunParams { num_cores: x, ..p };
        lemma_single_flag_args(seq!["--cores"@, v], "--cores"@, v);
        assert(run_params_from(seq!["--cores"@, v], 2, q) == Ok::<RunParams, Seq<char>>(q));
        assert("--cores"@ != "--scheduler"@) by { assert("--cores"@.len() != "--scheduler"@.len()); }
    }
    if let Some(x) = weather_named(ascii_lowercase(v)) {
        let q = RunParams { weather: x, ..p };
        lemma_single_flag_args(seq!["--weather"@, v], "--weather"@, v);
        assert(run_params_from(seq!["--weather"@, v], 2, q) == Ok::<RunParams, Seq<char>>(q));
        assert("--weather"@ != "--scheduler"@) by { assert("--weather"@.len() != "--scheduler"@.len()); }
        assert("--weather"@ != "--cores"@) by { assert("--weather"@.len() != "--cores"@.len()); }
    }
    if let Some(x) = spec_parse_fixed(v) {
        let q = RunParams { tightness: x, ..p };
        lemma_single_flag_args(seq!["--tightness"@, v], "--tightness"@, v);
        assert(run_params_from(seq!["--tightness"@, v], 2, q) == Ok::<RunParams, Seq<char>>(q));
        assert("--tightness"@ != "--scheduler"@) by { assert("--tightness"@[2] != "--scheduler"@[2]); }
        assert("--tightness"@ != "--cores"@) by { assert("--tightness"@.len() != "--cores"@.len()); }
        assert("--tightness"@ != "--weather"@) by { assert("--tightness"@.len() != "--weather"@.len()); }
    }
    if let Some(x) = spec_parse_fixed(v) {
        let q = RunParams { target_utilization: x, ..p };
        lemma_single_flag_args(seq!["--utilization"@, v], "--utilization"@, v);
        assert(run_params_from(seq!["--utilization"@, v], 2, q) == Ok::<RunParams, Seq<char>>(q));
        assert("--utilization"@ != "--scheduler"@) by { assert("--utilization"@.len() != "--scheduler"@.len()); }
        assert("--utilization"@ != "--cores"@) by { assert("--utilization"@.len() != "--cores"@.len()); }
        assert("--utilization"@ != "--weather"@) by { assert("--utilization"@.len() != "--weather"@.len()); }
        assert("--utilization"@ != "--tightness"@) by { assert("--utilization"@.len() != "--tightness"@.len()); }
    }
    if let Some(x) = spec_parse_fixed(v) {
        let q = RunParams { context_switch_cost: x, ..p };
        lemma_single_flag_args(seq!["--context-switch-cost"@, v], "--context-switch-cost"@, v);
        assert(run_params_from(seq!["--context-switch-cost"@, v], 2, q) == Ok::<RunParams, Seq<char>>(q));
        assert("--context-switch-cost"@ != "--scheduler"@) by { assert("--context-switch-cost"@.len() != "--scheduler"@.len()); }
        assert("--context-switch-cost"@ != "--cores"@) by { assert("--context-switch-cost"@.len() != "--cores"@.len()); }
        assert("--context-switch-cost"@ != "--weather"@) by { assert("--context-switch-cost"@.len() != "--weather"@.len()); }
        assert("--context-switch-cost"@ != "--tightness"@) by { assert("--context-switch-cost"@.len() != "--tightness"@.len()); }
        assert("--context-switch-cost"@ != "--utilization"@) by { assert("--context-switch-cost"@.len() != "--utilization"@.len()); }
    }
    if let Some(x) = spec_parse_fixed(v) {
        let q = RunParams { critical_coefficient: x, ..p };
        lemma_single_flag_args(seq!["--critical-coefficient"@, v], "--critical-coefficient"@, v);
        assert(run_params_from(seq!["--critical-coefficient"@, v], 2, q) == Ok::<RunParams, Seq<char>>(q));
        assert("--critical-coefficient"@ != "--scheduler"@) by { assert("--critical-coefficient"@.len() != "--scheduler"@.len()); }
        assert("--critical-coefficient"@ != "--cores"@) by { assert("--critical-coefficient"@.len() != "--cores"@.len()); }
        assert("--critical-coefficient"@ != "--weather"@) by { assert("--critical-coefficient"@.len() != "--weather"@.len()); }
        assert("--critical-coefficient"@ != "--tightness"@) by { assert("--critical-coefficient"@.len() != "--tightness"@.len()); }
        assert("--critical-coefficient"@ != "--utilization"@) by { assert("--critical-coefficient"@.len() != "--utilization"@.len()); }
        assert("--critical-coefficient"@ != "--context-switch-cost"@) by { assert("--critical-coefficient"@.len() != "--context-switch-cost"@.len()); }
    }
    if let Some(x) = spec_parse_usize(v) {
        let q = RunParams { task_count: x, ..p };
        lemma_single_flag_args(seq!["--tasks"@, v], "--tasks"@, v);
        assert(run_params_from(seq!["--tasks"@, v], 2, q) == Ok::<RunParams, Seq<char>>(q));
        assert("--tasks"@ != "--scheduler"@) by { assert("--tasks"@.len() != "--scheduler"@.len()); }
        assert("--tasks"@ != "--cores"@) by { assert("--tasks"@[2] != "--cores"@[2]); }
        assert("--tasks"@ != "--weather"@) by { assert("--tasks"@.len() != "--weather"@.len()); }
        assert("--tasks"@ != "--tightness"@) by { assert("--tasks"@.len() != "--tightness"@.len()); }
        assert("--tasks"@ != "--utilization"@) by { assert("--tasks"@.len() != "--utilization"@.len()); }
        assert("--tasks"@ != "--context-switch-cost"@) by { assert("--tasks"@.len() != "--context-switch-cost"@.len()); }
        assert("--tasks"@ != "--critical-coefficient"@) by { assert("--tasks"@.len() != "--critical-coefficient"@.len()); }
    }
    if let Some(x) = spec_parse_u64(v) {
        let q = RunParams { seed: x, ..p };
        lemma_single_flag_args(seq!["--seed"@, v], "--seed"@, v);
        assert(run_params_from(seq!["--seed"@, v], 2, q) == Ok::<RunParams, Seq<char>>(q));
        assert("--seed"@ != "--scheduler"@) by { assert("--seed"@.len() != "--scheduler"@.len()); }
        assert("--seed"@ != "--cores"@) by { assert("--seed"@.len() != "--cores"@.len()); }
        assert("--seed"@ != "--weather"@) by { assert("--seed"@.len() != "--weather"@.len()); }
        assert("--seed"@ != "--tightness"@) by { assert("--seed"@.len() != "--tightness"@.len()); }
        assert("--seed"@ != "--utilization"@) by { assert("--seed"@.len() != "--utilization"@.len()); }
        assert("--seed"@ != "--context-switch-cost"@) by { assert("--seed"@.len() != "--context-switch-cost"@.len()); }
        assert("--seed"@ != "--critical-coefficient"@) by { assert("--seed"@.len() != "--critical-coefficient"@.len()); }
        assert("--seed"@ != "--tasks"@) by { assert("--seed"@.len() != "--tasks"@.len()); }
    }
}

proof fn lemma_single_flag_args(a: Seq<Seq<char>>, f: Seq<char>, v: Seq<char>)
    requires
        a == seq![f, v],
    ensures
        a.len() == 2,
        a[0] == f,
        a[1] == v,
        flag_value(a, 0) == Ok::<Seq<char>, Seq<char>>(v),
        forall|q: RunParams| #[trigger] run_params_from(a, 2, q) == Ok::<RunParams, Seq<char>>(q),
        forall|q: SweepParams| #[trigger] sweep_params_from(a, 2, q) == Ok::<SweepParams, Seq<char>>(q),
{
}

/// Each sweep flag sets its own parameter and leaves the other as it was.
pub proof fn lemma_sweep_flag_sets_its_field(v: Seq<char>, p: SweepParams)
    ensures
        spec_parse_usize(v) matches Some(x) ==> sweep_params_from(seq!["--runs"@, v], 0, p)
            == Ok::<SweepParams, Seq<char>>(SweepParams { runs_per_config: x, ..p }),
        kind_named(normalized_name(v)) matches Some(k) ==> sweep_params_from(seq!["--scheduler"@, v], 0, p)
            == Ok::<SweepParams, Seq<char>>(SweepParams { scheduler: k, ..p }),
{
    reveal_strlit("--scheduler");
    reveal_strlit("--runs");
    lemma_single_flag_args(seq!["--scheduler"@, v], "--scheduler"@, v);
    lemma_single_flag_args(seq!["--runs"@, v], "--runs"@, v);
    assert("--runs"@ != "--scheduler"@) by {
        assert("--runs"@.len() != "--scheduler"@.len());
    }
    if let Some(x) = spec_parse_usize(v) {
        let q = SweepParams { runs_per_config: x, ..p };
        assert(sweep_params_from(seq!["--runs"@, v], 2, q) == Ok::<SweepParams, Seq<char>>(q));
    }
    if let Some(k) = kind_named(normalized_name(v)) {
        let q = SweepParams { scheduler: k, ..p };
        assert(sweep_params_from(seq!["--scheduler"@, v], 2, q) == Ok::<SweepParams, Seq<char>>(q));
    }
}

proof fn lemma_flag_value_shift(args: Seq<Seq<char>>, i: int)
    requires
        0 <= i,
        i + 1 < args.len(),
    ensures
        flag_value(args, i + 1) == flag_value(args.drop_first(), i),
{
    assert(args.drop_first()[i] == args[i + 1]);
    if i + 2 < args.len() {
        assert(args.drop_first()[i + 1] == args[i + 2]);
    }
}

/// Reading demo flags from position `i + 1` of the arguments is reading them
/// from position `i` of the arguments after the first.
pub proof fn lemma_run_params_shift(args: Seq<Seq<char>>, i: int, p: RunParams)
    requires
        0 <= i,
        args.len() > 0,
    ensures
        run_params_from(args, i + 1, p) == run_params_from(args.drop_first(), i, p),
    decreases args.len() - i,
{
    if i + 1 < args.len() {
        lemma_flag_value_shift(args, i);
        assert(args.drop_first()[i] == args[i + 1]);
        let q = args.drop_first();
        assert(q.len() == args.len() - 1);
        match flag_value(args, i + 1) {
            Err(m) => {},
            Ok(value) => {
                let flag = args[i + 1];
                if flag == "--scheduler"@ {
                    if let Some(k) = kind_named(normalized_name(value)) {
                        lemma_run_params_shift(args, i + 2, RunParams { scheduler: k, ..p });
                    }
                } else if flag == "--cores"@ {
                    if let Some(v) = spec_parse_usize(value) {
                        lemma_run_params_shift(args, i + 2, RunParams { num_cores: v, ..p });
                    }
                } else if flag == "--weather"@ {
                    if let Some(w) = weather_named(ascii_lowercase(value)) {
                        lemma_run_params_shift(args, i + 2, RunParams { weather: w, ..p });
                    }
                } else if flag == "--tightness"@ {
                    if let Some(v) = spec_parse_fixed(value) {
                        lemma_run_params_shift(args, i + 2, RunParams { tightness: v, ..p });
                    }
                } else if flag == "--utilization"@ {
                    if let Some(v) = spec_parse_fixed(value) {
                        lemma_run_params_shift(args, i + 2, RunParams { target_utilization: v, ..p });
                    }
                } else if flag == "--context-switch-cost"@ {
                    if let Some(v) = spec_parse_fixed(value) {
                        lemma_run_params_shift(args, i + 2, RunParams { context_switch_cost: v, ..p });
                    }
                } else if flag == "--critical-coefficient"@ {
                    if let Some(v) = spec_parse_fixed(value) {
                        lemma_run_params_shift(args, i + 2, RunParams { critical_coefficient: v, ..p });
                    }
                } else if flag == "--tasks"@ {
                    if let Some(v) = spec_parse_usize(value) {
                        lemma_run_params_shift(args, i + 2, RunParams { task_count: v, ..p });
                    }
                } else if flag == "--seed"@ {
                    if let Some(v) = spec_parse_u64(value) {
                        lemma_run_params_shift(args, i + 2, RunParams { seed: v, ..p });
                    }
                }
            },
        }
    }
}

/// Reading sweep flags from position `i + 1` of the arguments is reading
/// them from position `i` of the arguments after the first.
pub proof fn lemma_sweep_params_shift(args: Seq<Seq<char>>, i: int, p: SweepParams)
    requires
        0 <= i,
        args.len() > 0,
    ensures
        sweep_params_from(args, i + 1, p) == sweep_params_from(args.drop_first(), i, p),
    decreases args.len() - i,
{
    if i + 1 < args.len() {
        lemma_flag_value_shift(args, i);
        assert(args.drop_first()[i] == args[i + 1]);
        let q = args.drop_first();
        assert(q.len() == args.len() - 1);
        match flag_value(args, i + 1) {
            Err(m) => {},
            Ok(value) => {
                let flag = args[i + 1];
                if flag == "--scheduler"@ {
                    if let Some(k) = kind_named(normalized_name(value)) {
                        lemma_sweep_params_shift(args, i + 2, SweepParams { scheduler: k, ..p });
                    }
                } else if flag == "--runs"@ {
                    if let Some(v) = spec_parse_usize(value) {
                        lemma_sweep_params_shift(args, i + 2, SweepParams { runs_per_config: v, ..p });
                    }
                }
            },
        }
    }
}

/// A subcommand reads its flags exactly as `parse_run_params` or
/// `parse_sweep_params` read the arguments that follow it.
pub proof fn lemma_subcommand_flags(args: Seq<Seq<char>>)
    requires
        args.len() > 0,
    ensures
        args[0] == "demo"@ ==> command_from(args) == (match run_params_from(args.drop_first(), 0, default_run_params()) {
            Ok(p) => Ok(Command::Demo(p)),
            Err(m) => Err(m),
        }),
        args[0] == "sweep"@ ==> command_from(args) == (match sweep_params_from(args.drop_first(), 0, default_sweep_params()) {
            Ok(p) => Ok(Command::Sweep(p)),
            Err(m) => Err(m),
        }),
{
    lemma_run_params_shift(args, 0, default_run_params());
    lemma_sweep_params_shift(args, 0, default_sweep_params());
    reveal_strlit("demo");
    reveal_strlit("sweep");
    reveal_strlit("-h");
    reveal_strlit("--help");
    if args[0] == "demo"@ {
        assert(args[0] != "-h"@ && args[0] != "--help"@) by {
            assert(args[0][0] == 'd');
        }
        assert(run_params_from(args, 1, default_run_params())
            == run_params_from(args.drop_first(), 0, default_run_params()));
    }
    if args[0] == "sweep"@ {
        assert(args[0] != "-h"@ && args[0] != "--help"@ && args[0] != "demo"@) by {
            assert(args[0][0] == 's');
        }
        assert(sweep_params_from(args, 1, default_sweep_params())
            == sweep_params_from(args.drop_first(), 0, default_sweep_params()));
    }
}

/// Parses the program's arguments (without the program name).
pub fn parse_command(args: &Vec<String>) -> (r: Result<Command, String>)
    ensures
        same_outcome(r, command_from(arg_views(args@))),
{
    if args.len() == 0 {
        return Ok(Command::Both(RunParams::default(), SweepParams::default()));
    }
    let first = args[0].as_str();
    let all = args.as_slice();
    if same_text(first, "-h") || same_text(first, "--help") {
        Ok(Command::Help)
    } else if same_text(first, "demo") {
        match run_params_at(all, 1) {
            Ok(p) => Ok(Command::Demo(p)),
            Err(e) => Err(e),
        }
    } else if same_text(first, "sweep") {
        match sweep_params_at(all, 1) {
            Ok(p) => Ok(Command::Sweep(p)),
            Err(e) => Err(e),
        }
    } else {
        let mut e = String::from_str("unknown subcommand '");
        e.append(first);
        e.append("' (expected 'demo', 'sweep', or no subcommand to run both; try --help)");
        Err(e)
    }
}

} // verus!
