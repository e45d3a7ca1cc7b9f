//! Aggregation behavior on concrete datasets.

use perf_site::date_data::DateData;
use perf_site::day_range::{handle_data, handle_days};
use perf_site::fixed::{average, percent_change, ratio_of, round_to_tenth};
use perf_site::model::{
    Benchmark, Commit, CommitData, Run, RunKind, ServerError, Snapshot,
};
use perf_site::nll::handle_nll_dashboard;

fn s(x: &str) -> String {
    x.to_string()
}

fn run(release: bool, check: bool, kind: RunKind, stat: &str, value: i64) -> Run {
    Run {
        release,
        check,
        kind,
        stats: vec![(s(stat), value)],
    }
}

fn commit(sha: &str, date: u64, benches: Vec<(String, Option<Benchmark>)>) -> CommitData {
    CommitData {
        commit: Commit {
            sha: s(sha),
            date,
            summary: s("a commit"),
        },
        benchmarks: benches,
    }
}

fn bench(name: &str, runs: Vec<Run>) -> (String, Option<Benchmark>) {
    (
        s(name),
        Some(Benchmark {
            name: s(name),
            runs,
        }),
    )
}

fn snapshot(commits: Vec<CommitData>, artifacts: Vec<(String, CommitData)>) -> Snapshot {
    let last_date = commits.last().unwrap().commit.date;
    Snapshot {
        commits,
        artifact_data: artifacts,
        crate_list: vec![s("alpha")],
        stats_list: vec![s("wall-time")],
        last_date,
    }
}

// A value of 10.04 units is 10_040_000 micro-units.
#[test]
fn average_rounds_to_one_decimal() {
    assert_eq!(average(&vec![10_040_000, 10_060_000]), Some(10_100_000));
}

#[test]
fn single_value_rounds_to_one_decimal() {
    assert_eq!(round_to_tenth(10_160_000), 10_200_000);
}

#[test]
fn round_negative_half_goes_away_from_zero() {
    assert_eq!(round_to_tenth(-150_000), -200_000);
}

#[test]
fn cpu_clock_is_converted_to_seconds() {
    // A cpu-clock raw value of 2500 (milliseconds) is 2_500_000_000
    // micro-units and must aggregate as 2.5 (seconds) = 2_500_000.
    let cd = commit(
        "aaaaaaaaaaaa",
        100,
        vec![bench(
            "alpha",
            vec![run(false, true, RunKind::Clean, "cpu-clock", 2_500_000_000)],
        )],
    );
    let day = DateData::for_day(&cd, &s("cpu-clock"));
    assert_eq!(day.data.len(), 1);
    assert_eq!(day.data[0].0, s("alpha-check"));
    assert_eq!(day.data[0].1[0].2, 2_500_000);
}

#[test]
fn wall_time_is_not_converted() {
    let cd = commit(
        "aaaaaaaaaaaa",
        100,
        vec![bench(
            "alpha",
            vec![run(true, false, RunKind::Clean, "wall-time", 10_040_000)],
        )],
    );
    let day = DateData::for_day(&cd, &s("wall-time"));
    assert_eq!(day.data[0].0, s("alpha-opt"));
    assert_eq!(day.data[0].1[0].2, 10_040_000);
}

#[test]
fn failed_benchmarks_are_skipped() {
    let cd = CommitData {
        commit: Commit {
            sha: s("aaaaaaaaaaaa"),
            date: 100,
            summary: s("x"),
        },
        benchmarks: vec![(s("broken"), None)],
    };
    let day = DateData::for_day(&cd, &s("wall-time"));
    assert_eq!(day.data.len(), 0);
}

fn three_day_snapshot() -> Snapshot {
    // Day 1 and day 3 have no data for wall-time; day 2 does.
    let empty1 = commit("1111111111", 100, vec![]);
    let full = commit(
        "2222222222",
        200,
        vec![bench(
            "alpha",
            vec![run(false, true, RunKind::Clean, "wall-time", 5_000_000)],
        )],
    );
    let empty2 = commit("3333333333", 300, vec![]);
    snapshot(vec![empty1, full, empty2], vec![])
}

#[test]
fn day_range_trims_leading_and_trailing_empty_days() {
    let snap = three_day_snapshot();
    let days = handle_data(&snap, 0, 3, &s("wall-time")).unwrap();
    assert_eq!(days.len(), 1);
    assert_eq!(days[0].commit, s("2222222222"));
}

#[test]
fn day_range_trimming_is_idempotent() {
    // Re-running the aggregation on exactly the commits of its own trimmed
    // output yields the same output.
    let snap = three_day_snapshot();
    let once = handle_data(&snap, 0, 3, &s("wall-time")).unwrap();
    let again = handle_data(&snap, 1, 2, &s("wall-time")).unwrap();
    assert_eq!(once.len(), again.len());
    assert_eq!(once[0].commit, again[0].commit);
    assert_eq!(once[0].date, again[0].date);
    assert_eq!(once[0].data.len(), again[0].data.len());
}

#[test]
fn empty_range_is_a_data_error() {
    let snap = three_day_snapshot();
    assert!(matches!(
        handle_data(&snap, 0, 0, &s("wall-time")),
        Err(ServerError::EmptyRange)
    ));
}

#[test]
fn all_empty_days_are_a_data_error() {
    let snap = three_day_snapshot();
    // Only the first (empty) day is selected.
    assert!(matches!(
        handle_data(&snap, 0, 1, &s("wall-time")),
        Err(ServerError::EmptyRange)
    ));
}

#[test]
fn interior_holes_are_preserved() {
    let d1 = commit(
        "1111111111",
        100,
        vec![bench(
            "alpha",
            vec![run(false, true, RunKind::Clean, "wall-time", 1_000_000)],
        )],
    );
    let hole = commit("2222222222", 200, vec![]);
    let d3 = commit(
        "3333333333",
        300,
        vec![bench(
            "alpha",
            vec![run(false, true, RunKind::Clean, "wall-time", 2_000_000)],
        )],
    );
    let snap = snapshot(vec![d1, hole, d3], vec![]);
    let days = handle_data(&snap, 0, 3, &s("wall-time")).unwrap();
    assert_eq!(days.len(), 3);
    assert_eq!(days[1].data.len(), 0);
}

#[test]
fn two_point_comparison_returns_both_days() {
    let snap = three_day_snapshot();
    let r = handle_days(&snap, 0, 1, &s("wall-time"));
    assert_eq!(r.a.commit, s("1111111111"));
    assert_eq!(r.b.commit, s("2222222222"));
}

#[test]
fn nll_ordering_defined_desc_then_undefined_alphabetical() {
    // A: clean=10, alt=8 (+25%); B: no alt value; C: clean=10, alt=9.
    // Expected order: A, C, B.
    let cd = commit(
        "aaaaaaaaaaaa",
        100,
        vec![
            bench(
                "a_bench",
                vec![
                    run(false, true, RunKind::Clean, "wall-time", 10_000_000),
                    run(false, true, RunKind::Nll, "wall-time", 8_000_000),
                ],
            ),
            bench(
                "b_bench",
                vec![run(false, true, RunKind::Clean, "wall-time", 10_000_000)],
            ),
            bench(
                "c_bench",
                vec![
                    run(false, true, RunKind::Clean, "wall-time", 10_000_000),
                    run(false, true, RunKind::Nll, "wall-time", 9_000_000),
                ],
            ),
        ],
    );
    let snap = snapshot(vec![cd], vec![]);
    let r = handle_nll_dashboard(&snap, 0, &s("wall-time"));
    assert_eq!(r.commit, s("aaaaaaaaaaaa"));
    let names: Vec<String> = r.points.iter().map(|p| p.case.clone()).collect();
    assert_eq!(names, vec![s("a_bench"), s("c_bench"), s("b_bench")]);
    assert_eq!(r.points[0].clean, Some(10_000_000));
    assert_eq!(r.points[0].nll, Some(8_000_000));
    assert_eq!(r.points[1].nll, Some(9_000_000));
    assert_eq!(r.points[2].nll, None);
}

#[test]
fn nll_values_are_rounded_to_one_decimal() {
    let cd = commit(
        "aaaaaaaaaaaa",
        100,
        vec![bench(
            "a_bench",
            vec![run(false, true, RunKind::Clean, "wall-time", 10_160_000)],
        )],
    );
    let snap = snapshot(vec![cd], vec![]);
    let r = handle_nll_dashboard(&snap, 0, &s("wall-time"));
    assert_eq!(r.points[0].clean, Some(10_200_000));
}

#[test]
fn percent_change_is_relative_to_first() {
    // From 10.0 to 12.5 is +25%, carried as 25_000_000 micro-percent.
    assert_eq!(percent_change(10_000_000, 12_500_000), 25_000_000);
}

#[test]
fn ratio_is_in_micro_units() {
    // 5.0 over 2.0 is 2.5, carried as 2_500_000.
    assert_eq!(ratio_of(5_000_000, 2_000_000), 2_500_000);
}
