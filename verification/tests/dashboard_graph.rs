//! Dashboard and graph behavior on concrete datasets.

use perf_site::dashboard::handle_dashboard;
use perf_site::graph::handle_graph;
use perf_site::info::handle_info;
use perf_site::model::{
    Benchmark, Commit, CommitData, Run, RunKind, ServerError, Snapshot,
};

fn s(x: &str) -> String {
    x.to_string()
}

fn run(release: bool, check: bool, kind: RunKind, stat: &str, value: i64) -> Run {
    Run {
        release,
        check,
        kind,
        stats: vec![(s(stat), value)],
    }
}

fn bench(name: &str, runs: Vec<Run>) -> (String, Option<Benchmark>) {
    (
        s(name),
        Some(Benchmark {
            name: s(name),
            runs,
        }),
    )
}

fn commit(sha: &str, date: u64, benches: Vec<(String, Option<Benchmark>)>) -> CommitData {
    CommitData {
        commit: Commit {
            sha: s(sha),
            date,
            summary: s("a commit"),
        },
        benchmarks: benches,
    }
}

fn full_sweep(sha: &str, date: u64, wall: i64) -> CommitData {
    commit(
        sha,
        date,
        vec![bench(
            "alpha",
            vec![
                run(false, true, RunKind::Clean, "wall-time", wall),
                run(false, false, RunKind::Clean, "wall-time", wall + 1_000_000),
                run(true, false, RunKind::Clean, "wall-time", wall + 2_000_000),
                run(false, true, RunKind::BaseIncr, "wall-time", wall / 2),
            ],
        )],
    )
}

fn snapshot(commits: Vec<CommitData>, artifacts: Vec<(String, CommitData)>) -> Snapshot {
    let last_date = commits.last().unwrap().commit.date;
    Snapshot {
        commits,
        artifact_data: artifacts,
        crate_list: vec![s("alpha")],
        stats_list: vec![s("wall-time")],
        last_date,
    }
}

#[test]
fn dashboard_orders_versions_numerically_then_beta_then_master() {
    let snap = snapshot(
        vec![full_sweep("0123456789abcdef", 100, 10_000_000)],
        vec![
            (s("1.2.0"), full_sweep("aaaaaaaaaa", 10, 10_000_000)),
            (s("beta"), full_sweep("bbbbbbbbbb", 20, 10_000_000)),
            (s("1.10.0"), full_sweep("cccccccccc", 30, 10_000_000)),
        ],
    );
    let resp = handle_dashboard(&snap).unwrap();
    assert_eq!(
        resp.versions,
        vec![s("1.2.0"), s("1.10.0"), s("beta"), s("master: 01234567")]
    );
}

#[test]
fn dashboard_averages_wall_time_per_bucket() {
    let snap = snapshot(
        vec![full_sweep("0123456789abcdef", 100, 10_000_000)],
        vec![
            (s("beta"), full_sweep("bbbbbbbbbb", 20, 10_040_000)),
        ],
    );
    let resp = handle_dashboard(&snap).unwrap();
    // Row 0 is beta, row 1 is master.
    assert_eq!(resp.check.clean_averages[0], Some(10_000_000));
    assert_eq!(resp.debug.clean_averages[0], Some(11_000_000));
    assert_eq!(resp.opt.clean_averages[0], Some(12_000_000));
    assert_eq!(resp.check.clean_averages[1], Some(10_000_000));
    // beta (a non-numeric name) supports incremental builds.
    assert_eq!(resp.check.base_incr_averages[0], Some(5_000_000));
    // No clean-incremental samples anywhere: the bucket has no mean.
    assert_eq!(resp.check.clean_incr_averages[0], None);
}

#[test]
fn dashboard_excludes_incremental_for_old_toolchains() {
    let snap = snapshot(
        vec![full_sweep("0123456789abcdef", 100, 10_000_000)],
        vec![
            (s("1.20.0"), full_sweep("aaaaaaaaaa", 10, 10_000_000)),
            (s("beta"), full_sweep("bbbbbbbbbb", 20, 10_000_000)),
        ],
    );
    let resp = handle_dashboard(&snap).unwrap();
    // Row 0 is 1.20.0, which predates incremental support.
    assert_eq!(resp.check.base_incr_averages[0], None);
    assert_eq!(resp.check.clean_averages[0], Some(10_000_000));
    // Row 1 is beta, which supports it.
    assert_eq!(resp.check.base_incr_averages[1], Some(5_000_000));
}

#[test]
fn dashboard_rejects_unparseable_version_names() {
    let snap = snapshot(
        vec![full_sweep("0123456789abcdef", 100, 10_000_000)],
        vec![(s("bogus"), full_sweep("aaaaaaaaaa", 10, 10_000_000))],
    );
    assert!(matches!(
        handle_dashboard(&snap),
        Err(ServerError::UnexpectedVersion)
    ));
}

#[test]
fn dashboard_requires_a_beta_artifact() {
    let snap = snapshot(
        vec![full_sweep("0123456789abcdef", 100, 10_000_000)],
        vec![(s("1.2.0"), full_sweep("aaaaaaaaaa", 10, 10_000_000))],
    );
    assert!(matches!(
        handle_dashboard(&snap),
        Err(ServerError::MissingBetaArtifact)
    ));
}

#[test]
fn dashboard_requires_master_to_carry_betas_benchmarks() {
    let master = commit("0123456789abcdef", 100, vec![]);
    let snap = snapshot(
        vec![master],
        vec![(s("beta"), full_sweep("bbbbbbbbbb", 20, 10_000_000))],
    );
    assert!(matches!(
        handle_dashboard(&snap),
        Err(ServerError::InconsistentMaster)
    ));
}

#[test]
fn graph_points_carry_percent_change_from_series_start() {
    let d1 = commit(
        "1111111111",
        100,
        vec![bench(
            "alpha",
            vec![run(false, true, RunKind::Clean, "wall-time", 10_000_000)],
        )],
    );
    let d2 = commit(
        "2222222222",
        200,
        vec![bench(
            "alpha",
            vec![run(false, true, RunKind::Clean, "wall-time", 12_500_000)],
        )],
    );
    let snap = snapshot(vec![d1, d2], vec![]);
    let resp = handle_graph(&snap, 0, 2, &s("wall-time"), false).unwrap();
    let entry = resp
        .benchmarks
        .iter()
        .find(|e| e.0 == s("alpha-check"))
        .unwrap();
    let series = entry.1.iter().find(|e| e.0 == s("clean")).unwrap();
    assert_eq!(series.1.len(), 2);
    assert_eq!(series.1[0].absolute, 10_000_000);
    assert_eq!(series.1[0].percent, 0);
    assert_eq!(series.1[1].absolute, 12_500_000);
    assert_eq!(series.1[1].percent, 25_000_000);
    // The request asked for percent plotting.
    assert_eq!(series.1[1].y, 25_000_000);
    assert_eq!(series.1[0].x, 100_000);
    assert_eq!(series.1[0].prev_commit, None);
    assert_eq!(series.1[1].commit, s("2222222222"));
    assert_eq!(series.1[1].prev_commit, Some(s("1111111111")));
}

#[test]
fn graph_absolute_flag_plots_absolute_values() {
    let d1 = commit(
        "1111111111",
        100,
        vec![bench(
            "alpha",
            vec![run(false, true, RunKind::Clean, "wall-time", 10_000_000)],
        )],
    );
    let snap = snapshot(vec![d1], vec![]);
    let resp = handle_graph(&snap, 0, 1, &s("wall-time"), true).unwrap();
    let entry = resp
        .benchmarks
        .iter()
        .find(|e| e.0 == s("alpha-check"))
        .unwrap();
    assert_eq!(entry.1[0].1[0].y, 10_000_000);
}

#[test]
fn graph_builds_summary_series_normalized_to_baseline() {
    let d1 = commit(
        "1111111111",
        100,
        vec![bench(
            "alpha",
            vec![
                run(false, true, RunKind::Clean, "wall-time", 10_000_000),
                run(
                    false,
                    true,
                    RunKind::PatchedIncr(s("println")),
                    "wall-time",
                    5_000_000,
                ),
            ],
        )],
    );
    let snap = snapshot(vec![d1], vec![]);
    let resp = handle_graph(&snap, 0, 1, &s("wall-time"), true).unwrap();
    let summary = resp
        .benchmarks
        .iter()
        .find(|e| e.0 == s("Summary-check"))
        .unwrap();
    // The clean group normalizes to 1.0 against itself.
    let clean_series = summary.1.iter().find(|e| e.0 == s("clean")).unwrap();
    assert_eq!(clean_series.1[0].absolute, 1_000_000);
    // The println rebuild is half the clean build: ratio 0.5.
    let println_series = summary
        .1
        .iter()
        .find(|e| e.0 == s("patched incremental: println"))
        .unwrap();
    assert_eq!(println_series.1[0].absolute, 500_000);
}

#[test]
fn graph_reports_max_plotted_value_per_unsuffixed_name() {
    let d1 = commit(
        "1111111111",
        100,
        vec![
            bench(
                "alpha",
                vec![run(false, true, RunKind::Clean, "wall-time", 10_000_000)],
            ),
            bench(
                "beta_bench",
                vec![run(true, false, RunKind::Clean, "wall-time", 7_000_000)],
            ),
        ],
    );
    let snap = snapshot(vec![d1], vec![]);
    let resp = handle_graph(&snap, 0, 1, &s("wall-time"), true).unwrap();
    let alpha_max = resp.max.iter().find(|e| e.0 == s("alpha")).unwrap();
    assert_eq!(alpha_max.1, 10_000_000);
    let beta_max = resp.max.iter().find(|e| e.0 == s("beta_bench")).unwrap();
    assert_eq!(beta_max.1, 7_000_000);
}

#[test]
fn graph_on_an_empty_range_is_a_data_error() {
    let snap = snapshot(vec![commit("1111111111", 100, vec![])], vec![]);
    assert!(matches!(
        handle_graph(&snap, 0, 1, &s("wall-time"), true),
        Err(ServerError::EmptyRange)
    ));
}

#[test]
fn info_lists_names_and_last_date() {
    let snap = snapshot(vec![full_sweep("0123456789abcdef", 321, 10_000_000)], vec![]);
    let r = handle_info(&snap);
    assert_eq!(r.crates, vec![s("alpha")]);
    assert_eq!(r.stats, vec![s("wall-time")]);
    assert_eq!(r.as_of, 321);
}
