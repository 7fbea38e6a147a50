use adas_scheduler::cli::{
    next_flag_value, parse_command, parse_fixed, parse_num, parse_run_params, parse_sweep_params, parse_weather,
    Command,
};
use adas_scheduler::scheduler::SchedulerKind;
use adas_scheduler::task::Weather;
use adas_scheduler::text::to_ascii_lowercase;

fn args(v: &[&str]) -> Vec<String> {
    v.iter().map(|s| s.to_string()).collect()
}

#[test]
fn scheduler_names_parse() {
    assert_eq!(SchedulerKind::parse("global-edf"), Ok(SchedulerKind::GlobalEdf));
    assert_eq!(SchedulerKind::parse("EDF"), Ok(SchedulerKind::GlobalEdf));
    assert_eq!(SchedulerKind::parse("Partitioned_EDF"), Ok(SchedulerKind::PartitionedEdf));
    assert_eq!(SchedulerKind::parse("mllf"), Ok(SchedulerKind::Mllf));
    assert_eq!(SchedulerKind::parse("hybrid"), Ok(SchedulerKind::Proposed));
    assert_eq!(SchedulerKind::parse("relaxation"), Ok(SchedulerKind::Proposed));
    assert_eq!(SchedulerKind::parse("Relaxation"), Ok(SchedulerKind::Proposed));
    assert_eq!(SchedulerKind::parse("env proposed"), Ok(SchedulerKind::EnvProposed));
    assert_eq!(
        SchedulerKind::parse("Fifo"),
        Err("unknown scheduler 'fifo' (expected one of: global-edf, partitioned-edf, mllf, proposed, env-proposed)"
            .to_string())
    );
}

#[test]
fn scheduler_names_round_trip() {
    for k in SchedulerKind::all_kinds() {
        assert_eq!(SchedulerKind::parse(k.as_str()), Ok(k));
    }
    assert_eq!(SchedulerKind::default(), SchedulerKind::Proposed);
}

#[test]
fn weather_parses_case_insensitively() {
    assert_eq!(parse_weather("Rainy"), Ok(Weather::Rainy));
    assert_eq!(parse_weather("SNOWY"), Ok(Weather::Snowy));
    assert_eq!(parse_weather("Foggy"), Err("unknown weather 'foggy' (expected sunny|rainy|snowy)".to_string()));
    for w in Weather::all() {
        assert_eq!(parse_weather(w.as_str()), Ok(w));
    }
}

#[test]
fn lowercasing_touches_ascii_letters_only() {
    assert_eq!(to_ascii_lowercase("ABC"), "abc");
    assert_eq!(to_ascii_lowercase("MiXeD-9_Z"), "mixed-9_z");
    assert_eq!(to_ascii_lowercase("ÄB"), "Äb");
}

#[test]
fn counts_parse_as_unsigned() {
    assert_eq!(parse_num("4", "--cores"), Ok(4));
    assert_eq!(parse_num("+12", "--runs"), Ok(12));
    assert_eq!(parse_num("abc", "--runs"), Err("invalid value 'abc' for --runs".to_string()));
    assert_eq!(parse_num("", "--runs"), Err("invalid value '' for --runs".to_string()));
    assert_eq!(parse_num("-1", "--cores"), Err("invalid value '-1' for --cores".to_string()));
    assert_eq!(parse_num("+", "--cores"), Err("invalid value '+' for --cores".to_string()));
}

#[test]
fn decimals_parse_to_fixed_point() {
    assert_eq!(parse_fixed("1.5", "--tightness"), Ok(1_500_000));
    assert_eq!(parse_fixed("-0.25", "--tightness"), Ok(-250_000));
    assert_eq!(parse_fixed("2", "--utilization"), Ok(2_000_000));
    assert_eq!(parse_fixed(".5", "--utilization"), Ok(500_000));
    assert_eq!(parse_fixed("3.", "--utilization"), Ok(3_000_000));
    assert_eq!(parse_fixed("1.2345678", "--tightness"), Ok(1_234_567));
    assert_eq!(parse_fixed(".", "--tightness"), Err("invalid value '.' for --tightness".to_string()));
    assert_eq!(parse_fixed("1e3", "--tightness"), Err("invalid value '1e3' for --tightness".to_string()));
    assert_eq!(parse_fixed("", "--tightness"), Err("invalid value '' for --tightness".to_string()));
}

#[test]
fn flag_values_come_after_their_flag() {
    let a = args(&["--cores", "4", "--weather"]);
    assert_eq!(next_flag_value(&a, 0), Ok("4"));
    assert_eq!(next_flag_value(&a, 2), Err("flag '--weather' expects a value".to_string()));
}

#[test]
fn demo_flags_set_run_parameters() {
    let a = args(&["--scheduler", "mllf", "--cores", "4", "--weather", "rainy", "--tightness", "1.5",
        "--utilization", "3.0", "--tasks", "12"]);
    let p = parse_run_params(&a).unwrap();
    assert_eq!(p.scheduler, SchedulerKind::Mllf);
    assert_eq!(p.num_cores, 4);
    assert_eq!(p.weather, Weather::Rainy);
    assert_eq!(p.tightness, 1_500_000);
    assert_eq!(p.target_utilization, 3_000_000);
    assert_eq!(p.task_count, 12);
    assert_eq!(p.context_switch_cost, 1_000_000);
    assert_eq!(p.critical_coefficient, 5_000_000);
    let c = p.to_sim_config();
    assert_eq!(c.num_cores, 4);
    assert_eq!(c.tightness, 1_500_000);
    assert_eq!(
        parse_run_params(&args(&["--speed", "3"])).err(),
        Some("unknown flag '--speed' for 'demo' (try --help)".to_string())
    );
}

#[test]
fn sweep_flags_set_sweep_parameters() {
    let p = parse_sweep_params(&args(&["--runs", "5", "--scheduler", "proposed"])).unwrap();
    assert_eq!(p.runs_per_config, 5);
    assert_eq!(p.scheduler, SchedulerKind::Proposed);
    let d = parse_sweep_params(&args(&[])).unwrap();
    assert_eq!(d.runs_per_config, 20);
    assert_eq!(
        parse_sweep_params(&args(&["--cores", "2"])).err(),
        Some("unknown flag '--cores' for 'sweep' (try --help)".to_string())
    );
    assert_eq!(parse_sweep_params(&args(&["--runs"])).err(), Some("flag '--runs' expects a value".to_string()));
}

#[test]
fn commands_by_subcommand() {
    assert!(matches!(parse_command(&args(&[])), Ok(Command::Both(_, _))));
    assert!(matches!(parse_command(&args(&["--help"])), Ok(Command::Help)));
    assert!(matches!(parse_command(&args(&["-h"])), Ok(Command::Help)));
    match parse_command(&args(&["demo", "--cores", "3"])) {
        Ok(Command::Demo(p)) => assert_eq!(p.num_cores, 3),
        _ => panic!("expected a demo command"),
    }
    match parse_command(&args(&["sweep", "--runs", "7"])) {
        Ok(Command::Sweep(p)) => assert_eq!(p.runs_per_config, 7),
        _ => panic!("expected a sweep command"),
    }
    match parse_command(&args(&["run"])) {
        Err(e) => assert_eq!(
            e,
            "unknown subcommand 'run' (expected 'demo', 'sweep', or no subcommand to run both; try --help)"
        ),
        _ => panic!("expected an error"),
    }
    match parse_command(&args(&["demo", "--weather", "hail"])) {
        Err(e) => assert_eq!(e, "unknown weather 'hail' (expected sunny|rainy|snowy)"),
        _ => panic!("expected an error"),
    }
}

#[test]
fn demo_seed_flag_is_read() {
    let p = parse_run_params(&args(&["--utilization", "3.0", "--seed", "7"])).unwrap();
    assert_eq!(p.target_utilization, 3_000_000);
    assert_eq!(p.seed, 7);
    assert_eq!(parse_run_params(&args(&[])).unwrap().seed, 42);
    assert_eq!(parse_run_params(&args(&["--seed", "18446744073709551615"])).unwrap().seed, u64::MAX);
    assert_eq!(
        parse_run_params(&args(&["--seed", "18446744073709551616"])).err(),
        Some("invalid value '18446744073709551616' for --seed".to_string())
    );
    assert_eq!(parse_run_params(&args(&["--seed", "-3"])).err(), Some("invalid value '-3' for --seed".to_string()));
}

#[test]
fn defaults_follow_the_flag_table() {
    let p = parse_run_params(&args(&[])).unwrap();
    assert_eq!(p.scheduler, SchedulerKind::Proposed);
    assert_eq!(p.num_cores, 2);
    assert_eq!(p.weather, Weather::Sunny);
    assert_eq!(p.tightness, 1_000_000);
    assert_eq!(p.target_utilization, 1_500_000);
    assert_eq!(p.seed, 42);
    let d = parse_sweep_params(&args(&[])).unwrap();
    assert_eq!(d.scheduler, SchedulerKind::Proposed);
    assert_eq!(d.runs_per_config, 20);
    let q = parse_run_params(&args(&["--scheduler", "relaxation"])).unwrap();
    assert_eq!(q.scheduler, SchedulerKind::Proposed);
}
