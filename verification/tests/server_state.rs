//! Dispatcher decisions, encoding, lookups, the store and the coordinator.

use std::io::Read;

use perf_site::commit_lookup::{commit_as_of, commit_for_pr, contains_sub_exec, u64_to_string};
use perf_site::encode::finish_post_response;
use perf_site::model::{Commit, CommitData, Snapshot};
use perf_site::route::{
    body_allowed, dispatch, fs_path, is_path_safe, parse_u64, route, Dispatch, Endpoint,
    HttpMethod,
};
use perf_site::store::{RefreshCoordinator, RefreshState, Store};

fn s(x: &str) -> String {
    x.to_string()
}

fn commit(sha: &str, date: u64, summary: &str) -> Commit {
    Commit {
        sha: s(sha),
        date,
        summary: s(summary),
    }
}

#[test]
fn oversized_bodies_are_rejected_before_decoding() {
    assert!(body_allowed(10_000));
    assert!(!body_allowed(10_001));
    assert!(body_allowed(0));
}

#[test]
fn known_paths_route_to_their_handlers() {
    assert_eq!(route("/perf/info"), Some(Endpoint::Info));
    assert_eq!(route("/perf/dashboard"), Some(Endpoint::Dashboard));
    assert_eq!(route("/perf/data"), Some(Endpoint::Data));
    assert_eq!(route("/perf/graph"), Some(Endpoint::Graph));
    assert_eq!(route("/perf/get"), Some(Endpoint::GetDays));
    assert_eq!(route("/perf/nll_dashboard"), Some(Endpoint::NllDashboard));
    assert_eq!(route("/perf/pr_commit"), Some(Endpoint::PrCommit));
    assert_eq!(route("/perf/date_commit"), Some(Endpoint::DateCommit));
    assert_eq!(route("/perf/onpush"), Some(Endpoint::OnPush));
    assert_eq!(route("/perf/unknown"), None);
}

#[test]
fn wrong_method_is_refused_and_unknown_paths_fall_through() {
    assert_eq!(
        dispatch(HttpMethod::Get, "/perf/data"),
        Dispatch::MethodNotAllowed
    );
    assert_eq!(
        dispatch(HttpMethod::Post, "/perf/info"),
        Dispatch::MethodNotAllowed
    );
    assert_eq!(
        dispatch(HttpMethod::Post, "/perf/data"),
        Dispatch::Handle(Endpoint::Data)
    );
    assert_eq!(
        dispatch(HttpMethod::Get, "/somewhere"),
        Dispatch::NotFound
    );
    // The refresh hook takes any method.
    assert_eq!(
        dispatch(HttpMethod::Other, "/perf/onpush"),
        Dispatch::Handle(Endpoint::OnPush)
    );
}

#[test]
fn relative_steps_make_a_path_unsafe() {
    assert!(!is_path_safe("site/static/../secret"));
    assert!(!is_path_safe("./x"));
    assert!(is_path_safe("/scripts/app.js"));
}

#[test]
fn fs_paths_default_to_the_index_page() {
    assert_eq!(fs_path(""), s("site/static/index.html"));
    assert_eq!(fs_path("/"), s("site/static/index.html"));
    assert_eq!(fs_path("/x.js"), s("site/static/x.js"));
}

#[test]
fn decimal_strings_parse_exactly() {
    assert_eq!(parse_u64("1234"), Some(1234));
    assert_eq!(parse_u64("0"), Some(0));
    assert_eq!(parse_u64(""), None);
    assert_eq!(parse_u64("12a"), None);
    assert_eq!(parse_u64("99999999999999999999999"), None);
}

#[test]
fn numbers_print_in_decimal() {
    assert_eq!(u64_to_string(0), s("0"));
    assert_eq!(u64_to_string(1234), s("1234"));
}

#[test]
fn substring_search_finds_tokens() {
    assert!(contains_sub_exec("Auto merge of #1234 - x", "#1234"));
    assert!(!contains_sub_exec("Auto merge of #123 - x", "#1234"));
    assert!(contains_sub_exec("anything", ""));
}

#[test]
fn commit_as_of_returns_latest_strictly_before() {
    let commits = vec![
        commit("aaaaaaaaaa", 100, "one"),
        commit("bbbbbbbbbb", 200, "two"),
        commit("cccccccccc", 300, "three"),
    ];
    assert_eq!(commit_as_of(&commits, 250), Some(s("bbbbbbbbbb")));
    assert_eq!(commit_as_of(&commits, 301), Some(s("cccccccccc")));
    // Absence is data, not failure.
    assert_eq!(commit_as_of(&commits, 100), None);
}

#[test]
fn commit_for_pr_matches_the_literal_token() {
    let commits = vec![
        commit("aaaaaaaaaa", 100, "Auto merge of #99 - x"),
        commit("bbbbbbbbbb", 200, "Auto merge of #1234 - y"),
    ];
    assert_eq!(commit_for_pr(&commits, 1234), Some(s("bbbbbbbbbb")));
    // The match is a plain substring search, so a shorter number that is a
    // prefix of a listed one still matches.
    assert_eq!(commit_for_pr(&commits, 12), Some(s("bbbbbbbbbb")));
    assert_eq!(commit_for_pr(&commits, 7777), None);
}

#[test]
fn gzip_encoding_round_trips_and_changes_the_bytes() {
    let payload: Vec<u8> = b"a compact binary payload, repeated payload payload".to_vec();
    let encoded = finish_post_response(payload.clone(), true);
    assert!(encoded.gzipped);
    assert_ne!(encoded.bytes, payload);
    let mut decoder = flate2::read::GzDecoder::new(encoded.bytes.as_slice());
    let mut back = Vec::new();
    decoder.read_to_end(&mut back).unwrap();
    assert_eq!(back, payload);
}

#[test]
fn uncompressed_bodies_pass_through() {
    let payload: Vec<u8> = b"plain".to_vec();
    let encoded = finish_post_response(payload.clone(), false);
    assert!(!encoded.gzipped);
    assert_eq!(encoded.bytes, payload);
}

fn tiny_snapshot(sha: &str, wall_date: u64) -> Snapshot {
    Snapshot {
        commits: vec![CommitData {
            commit: commit(sha, wall_date, "x"),
            benchmarks: vec![],
        }],
        artifact_data: vec![],
        crate_list: vec![],
        stats_list: vec![],
        last_date: wall_date,
    }
}

#[test]
fn store_replaces_the_snapshot_wholly() {
    let store = Store::new(tiny_snapshot("aaaaaaaaaa", 100));
    {
        let h = store.read();
        assert_eq!(h.borrow().last_date, 100);
        h.release_read();
    }
    store.replace(tiny_snapshot("bbbbbbbbbb", 200));
    let h = store.read();
    assert_eq!(h.borrow().last_date, 200);
    assert_eq!(h.borrow().commits[0].commit.sha, s("bbbbbbbbbb"));
    h.release_read();
}

#[test]
fn refresh_is_single_flight_and_always_returns_to_idle() {
    let mut c = RefreshCoordinator::new();
    assert!(matches!(c.state, RefreshState::Idle));
    // The first trigger starts the one refresh.
    assert!(c.try_begin());
    // Concurrent triggers are acknowledged without starting another.
    assert!(!c.try_begin());
    assert!(!c.try_begin());
    // Completion (success or failure) restores idle unconditionally.
    c.finish();
    assert!(matches!(c.state, RefreshState::Idle));
    // A later trigger starts a new refresh.
    assert!(c.try_begin());
    c.finish();
}
