//! The dashboard table: per reference build (numbered releases, "beta", and a
//! synthetic "master" entry), the mean wall-time over all non-failing
//! benchmarks for each of the twelve (tier x scenario) buckets.

use vstd::prelude::*;

verus! {

use vstd::string::{StringExecFns, StrSliceExecFns};
use crate::model::{
    Benchmark, CommitData, Run, RunV, ServerError, ServerResult, Snapshot, Tier, assoc_get,
    assoc_index, benchmark_wf, commit_data_wf, runs_view, snapshot_wf, stat_in, str_eq, string_eq,
};
use crate::fixed::{amount_in_range, average, average_spec};
use crate::date_data::lemma_stat_in_range;
use crate::version_sort::{
    VersionItem, VersionKey, incr_ok, key_le, key_of, parse_version, sort_versions, sorted_by_key,
};

/// The four incremental scenarios the dashboard tracks per tier.
#[derive(Clone, Copy, PartialEq, Eq, Structural, Debug)]
pub enum Scen {
    Clean,
    BaseIncr,
    CleanIncr,
    PrintlnIncr,
}

/// One tier's four bucket columns, one mean per listed version; a bucket
/// without samples has no mean.
pub struct DashboardCases {
    pub clean_averages: Vec<Option<i64>>,
    pub base_incr_averages: Vec<Option<i64>>,
    pub clean_incr_averages: Vec<Option<i64>>,
    pub println_incr_averages: Vec<Option<i64>>,
}

/// The dashboard table.
pub struct DashboardResponse {
    pub versions: Vec<String>,
    pub check: DashboardCases,
    pub debug: DashboardCases,
    pub opt: DashboardCases,
}

/// Whether a run belongs to the given (tier, scenario) bucket.
pub open spec fn run_matches(rv: RunV, t: Tier, s: Scen) -> bool {
    rv.tier() == t && match s {
        Scen::Clean => rv.is_clean(),
        Scen::BaseIncr => rv.is_base_incr(),
        Scen::CleanIncr => rv.is_clean_incr(),
        Scen::PrintlnIncr => rv.is_println_incr(),
    }
}

/// The first run of the list that belongs to the bucket.
pub open spec fn first_match(runs: Seq<RunV>, t: Tier, s: Scen) -> Option<RunV>
    decreases runs.len(),
{
    if runs.len() == 0 {
        None
    } else if run_matches(runs[0], t, s) {
        Some(runs[0])
    } else {
        first_match(runs.drop_first(), t, s)
    }
}

pub proof fn lemma_first_match_at(runs: Seq<RunV>, t: Tier, s: Scen, i: int)
    requires
        0 <= i < runs.len(),
        run_matches(runs[i], t, s),
        forall|j: int| 0 <= j < i ==> !run_matches(#[trigger] runs[j], t, s),
    ensures
        first_match(runs, t, s) == Some(runs[i]),
    decreases i,
{
    if i > 0 {
        lemma_first_match_at(runs.drop_first(), t, s, i - 1);
    }
}

pub proof fn lemma_first_match_none(runs: Seq<RunV>, t: Tier, s: Scen)
    requires
        forall|j: int| 0 <= j < runs.len() ==> !run_matches(#[trigger] runs[j], t, s),
    ensures
        first_match(runs, t, s) is None,
    decreases runs.len(),
{
    if runs.len() > 0 {
        lemma_first_match_none(runs.drop_first(), t, s);
    }
}

/// Some listed name reads the same as `k`.
pub open spec fn names_contain(ns: Seq<String>, k: Seq<char>) -> bool {
    exists|i: int| 0 <= i < ns.len() && (#[trigger] ns[i])@ == k
}

/// Whether a benchmark key passes the optional allow-list.
pub open spec fn key_allowed(names: Option<Seq<String>>, k: Seq<char>) -> bool {
    match names {
        None => true,
        Some(ns) => names_contain(ns, k),
    }
}

/// The wall-time sample one benchmark entry contributes to a bucket: its
/// first run in the bucket, if that run recorded the metric; recorded
/// failures and filtered-out names contribute nothing.
pub open spec fn bench_points(
    pair: (String, Option<Benchmark>),
    names: Option<Seq<String>>,
    t: Tier,
    s: Scen,
) -> Seq<i64> {
    match pair.1 {
        None => Seq::empty(),
        Some(b) => if key_allowed(names, pair.0@) {
            match first_match(runs_view(b.runs@), t, s) {
                None => Seq::empty(),
                Some(rv) => match stat_in(rv.stats, "wall-time"@) {
                    None => Seq::empty(),
                    Some(v) => seq![v],
                },
            }
        } else {
            Seq::empty()
        },
    }
}

/// All samples a sweep contributes to a bucket, in benchmark order.
pub open spec fn bucket_points(
    benches: Seq<(String, Option<Benchmark>)>,
    names: Option<Seq<String>>,
    t: Tier,
    s: Scen,
) -> Seq<i64>
    decreases benches.len(),
{
    if benches.len() == 0 {
        Seq::empty()
    } else {
        bucket_points(benches.drop_last(), names, t, s) + bench_points(benches.last(), names, t, s)
    }
}

/// The bucket column value a sample list yields: its rounded mean, or no
/// value when the list is empty.
pub open spec fn matches_avg(o: Option<i64>, s: Seq<i64>) -> bool {
    match o {
        None => s.len() == 0,
        Some(x) => s.len() > 0 && x == average_spec(s),
    }
}

/// The keys of the benchmarks that succeeded, in order.
pub open spec fn ok_keys(benches: Seq<(String, Option<Benchmark>)>) -> Seq<String>
    decreases benches.len(),
{
    if benches.len() == 0 {
        Seq::empty()
    } else {
        ok_keys(benches.drop_last()) + (if benches.last().1 is Some {
            seq![benches.last().0]
        } else {
            Seq::empty()
        })
    }
}

/// Some reference-build name is neither a semantic version nor "beta".
pub open spec fn bad_version(data: Snapshot) -> bool {
    exists|i: int|
        0 <= i < data.artifact_data@.len() && key_of(
            (#[trigger] data.artifact_data@[i]).0@,
        ) is None
}

/// A "beta" reference build is present.
pub open spec fn has_beta(data: Snapshot) -> bool {
    exists|i: int| 0 <= i < data.artifact_data@.len() && (#[trigger] data.artifact_data@[i]).0@ == "beta"@
}

/// The "beta" reference build's sweep.
pub open spec fn beta_cd(data: Snapshot) -> CommitData {
    assoc_get(data.artifact_data@, "beta"@)->0
}

/// Every benchmark the "beta" build succeeded on is present on the newest
/// commit.
pub open spec fn master_ok(data: Snapshot) -> bool {
    let names = ok_keys(beta_cd(data).benchmarks@);
    let last = data.commits@.last();
    forall|k: int|
        0 <= k < names.len() ==> assoc_get(last.benchmarks@, (#[trigger] names[k])@) is Some
}

/// The samples a listed version's bucket averages: the version's own sweep,
/// all benchmarks; incremental buckets only for toolchains that support
/// incremental compilation.
pub open spec fn version_bucket(data: Snapshot, name: Seq<char>, t: Tier, s: Scen) -> Seq<i64> {
    let cd = assoc_get(data.artifact_data@, name)->0;
    if s is Clean || incr_ok(name) {
        bucket_points(cd.benchmarks@, None, t, s)
    } else {
        Seq::empty()
    }
}

/// The samples the synthetic "master" row averages: the newest commit's
/// sweep, restricted to the benchmarks the "beta" build succeeded on.
pub open spec fn master_bucket(data: Snapshot, t: Tier, s: Scen) -> Seq<i64> {
    bucket_points(
        data.commits@.last().benchmarks@,
        Some(ok_keys(beta_cd(data).benchmarks@)),
        t,
        s,
    )
}

/// Some item carries this name.
pub open spec fn items_contain(items: Seq<VersionItem>, k: Seq<char>) -> bool {
    exists|q: int| 0 <= q < items.len() && (#[trigger] items[q]).1@ == k
}

/// Some reference build bears this name.
pub open spec fn artifact_has_key(data: Snapshot, k: Seq<char>) -> bool {
    exists|j: int| 0 <= j < data.artifact_data@.len() && (#[trigger] data.artifact_data@[j]).0@ == k
}

/// The name stands somewhere in the first `n` listed versions.
pub open spec fn listed_before(vs: Seq<String>, n: int, k: Seq<char>) -> bool {
    exists|i: int| 0 <= i < n && (#[trigger] vs[i])@ == k
}

/// One tier's four columns are correct at one row.
pub open spec fn tier_row_ok(
    data: Snapshot,
    name: Seq<char>,
    t: Tier,
    clean: Option<i64>,
    base: Option<i64>,
    cleani: Option<i64>,
    println_incr: Option<i64>,
) -> bool {
    &&& matches_avg(clean, version_bucket(data, name, t, Scen::Clean))
    &&& matches_avg(base, version_bucket(data, name, t, Scen::BaseIncr))
    &&& matches_avg(cleani, version_bucket(data, name, t, Scen::CleanIncr))
    &&& matches_avg(println_incr, version_bucket(data, name, t, Scen::PrintlnIncr))
}

/// One tier's four columns are correct at the "master" row.
pub open spec fn master_tier_row_ok(
    data: Snapshot,
    t: Tier,
    clean: Option<i64>,
    base: Option<i64>,
    cleani: Option<i64>,
    println_incr: Option<i64>,
) -> bool {
    &&& matches_avg(clean, master_bucket(data, t, Scen::Clean))
    &&& matches_avg(base, master_bucket(data, t, Scen::BaseIncr))
    &&& matches_avg(cleani, master_bucket(data, t, Scen::CleanIncr))
    &&& matches_avg(println_incr, master_bucket(data, t, Scen::PrintlnIncr))
}

/// One tier's columns are correct at every version row.
pub open spec fn cases_ok(data: Snapshot, versions: Seq<String>, t: Tier, c: DashboardCases) -> bool {
    let n = data.artifact_data@.len() as int;
    &&& c.clean_averages@.len() == n + 1
    &&& c.base_incr_averages@.len() == n + 1
    &&& c.clean_incr_averages@.len() == n + 1
    &&& c.println_incr_averages@.len() == n + 1
    &&& forall|i: int|
        0 <= i < n ==> tier_row_ok(
            data,
            (#[trigger] versions[i])@,
            t,
            c.clean_averages@[i],
            c.base_incr_averages@[i],
            c.clean_incr_averages@[i],
            c.println_incr_averages@[i],
        )
    &&& master_tier_row_ok(
        data,
        t,
        c.clean_averages@[n],
        c.base_incr_averages@[n],
        c.clean_incr_averages@[n],
        c.println_incr_averages@[n],
    )
}

/// The whole response is correct: the version column lists every reference
/// build exactly once in key order followed by the abbreviated "master"
/// entry, and all thirty-six columns hold the right means.
pub open spec fn dashboard_ok(data: Snapshot, resp: DashboardResponse) -> bool {
    let n = data.artifact_data@.len() as int;
    &&& resp.versions@.len() == n + 1
    &&& forall|i: int| 0 <= i < n ==> artifact_has_key(data, (#[trigger] resp.versions@[i])@)
    &&& forall|j: int|
        0 <= j < n ==> listed_before(resp.versions@, n, (#[trigger] data.artifact_data@[j]).0@)
    &&& forall|i: int| 0 <= i < n ==> key_of((#[trigger] resp.versions@[i])@) is Some
    &&& forall|i: int, j: int|
        0 <= i < j < n ==> key_le(
            key_of((#[trigger] resp.versions@[i])@)->0,
            key_of((#[trigger] resp.versions@[j])@)->0,
        )
    &&& resp.versions@[n]@ == "master: "@ + data.commits@.last().commit.sha@.subrange(0, 8)
    &&& cases_ok(data, resp.versions@, Tier::Check, resp.check)
    &&& cases_ok(data, resp.versions@, Tier::Debug, resp.debug)
    &&& cases_ok(data, resp.versions@, Tier::Opt, resp.opt)
}

fn run_matches_e(run: &Run, t: Tier, s: Scen) -> (r: bool)
    ensures
        r == run_matches(run@, t, s),
{
    run.tier() == t && match s {
        Scen::Clean => run.is_clean(),
        Scen::BaseIncr => run.is_base_incr(),
        Scen::CleanIncr => run.is_clean_incr(),
        Scen::PrintlnIncr => run.is_println_incr(),
    }
}

fn contains_name(ns: &Vec<String>, k: &String) -> (r: bool)
    ensures
        r == names_contain(ns@, k@),
{
    let mut i: usize = 0;
    while i < ns.len()
        invariant
            0 <= i <= ns@.len(),
            forall|j: int| 0 <= j < i ==> (#[trigger] ns@[j])@ != k@,
        decreases ns@.len() - i,
    {
        if string_eq(&ns[i], k) {
            return true;
        }
        i = i + 1;
    }
    false
}

/// The keys of the benchmarks that succeeded, as owned strings.
fn collect_ok_keys(benches: &Vec<(String, Option<Benchmark>)>) -> (r: Vec<String>)
    ensures
        r@ == ok_keys(benches@),
{
    let mut r: Vec<String> = Vec::new();
    let mut i: usize = 0;
    proof {
        assert(r@ =~= ok_keys(benches@.subrange(0, 0)));
    }
    while i < benches.len()
        invariant
            0 <= i <= benches@.len(),
            r@ == ok_keys(benches@.subrange(0, i as int)),
        decreases benches@.len() - i,
    {
        proof {
            assert(benches@.subrange(0, i + 1).drop_last() =~= benches@.subrange(0, i as int));
        }
        if benches[i].1.is_some() {
            r.push(benches[i].0.clone());
        }
        proof {
            assert(r@ =~= ok_keys(benches@.subrange(0, i + 1)));
        }
        i = i + 1;
    }
    proof {
        assert(benches@.subrange(0, benches@.len() as int) =~= benches@);
    }
    r
}

spec fn names_view(n: Option<&Vec<String>>) -> Option<Seq<String>> {
    match n {
        None => None,
        Some(v) => Some(v@),
    }
}

/// Collects a bucket's samples from a sweep.
fn bucket_for(
    benches: &Vec<(String, Option<Benchmark>)>,
    names: Option<&Vec<String>>,
    t: Tier,
    s: Scen,
    stat: &String,
) -> (r: Vec<i64>)
    requires
        forall|i: int|
            0 <= i < benches@.len() ==> ((#[trigger] benches@[i]).1 matches Some(b)
                ==> benchmark_wf(b)),
        stat@ == "wall-time"@,
    ensures
        r@ == bucket_points(benches@, names_view(names), t, s),
        forall|i: int| 0 <= i < r@.len() ==> amount_in_range(#[trigger] r@[i]),
{
    let ghost nv = names_view(names);
    let mut r: Vec<i64> = Vec::new();
    let mut i: usize = 0;
    proof {
        assert(r@ =~= bucket_points(benches@.subrange(0, 0), nv, t, s));
    }
    while i < benches.len()
        invariant
            0 <= i <= benches@.len(),
            forall|k: int|
                0 <= k < benches@.len() ==> ((#[trigger] benches@[k]).1 matches Some(b)
                    ==> benchmark_wf(b)),
            stat@ == "wall-time"@,
            nv == names_view(names),
            r@ == bucket_points(benches@.subrange(0, i as int), nv, t, s),
            forall|k: int| 0 <= k < r@.len() ==> amount_in_range(#[trigger] r@[k]),
        decreases benches@.len() - i,
    {
        proof {
            assert(benches@.subrange(0, i + 1).drop_last() =~= benches@.subrange(0, i as int));
            assert(benches@.subrange(0, i + 1).last() == benches@[i as int]);
        }
        if let Some(b) = &benches[i].1 {
            let allowed = match names {
                None => true,
                Some(ns) => contains_name(ns, &benches[i].0),
            };
            if allowed {
                let ghost rv = runs_view(b.runs@);
                let mut fidx: Option<usize> = None;
                let mut j: usize = 0;
                while j < b.runs.len()
                    invariant
                        0 <= j <= b.runs@.len(),
                        rv == runs_view(b.runs@),
                        rv.len() == b.runs@.len(),
                        match fidx {
                            None => forall|q: int|
                                0 <= q < j ==> !run_matches(#[trigger] rv[q], t, s),
                            Some(f) => f < j && run_matches(rv[f as int], t, s) && (forall|q: int|
                                0 <= q < f ==> !run_matches(#[trigger] rv[q], t, s)),
                        },
                    decreases b.runs@.len() - j,
                {
                    if matches!(fidx, None) && run_matches_e(&b.runs[j], t, s) {
                        proof {
                            assert(rv[j as int] == b.runs@[j as int]@);
                        }
                        fidx = Some(j);
                    }
                    proof {
                        assert(rv[j as int] == b.runs@[j as int]@);
                    }
                    j = j + 1;
                }
                match fidx {
                    Some(f) => {
                        proof {
                            lemma_first_match_at(rv, t, s, f as int);
                        }
                        let run = &b.runs[f];
                        if let Some(v) = run.get_stat(stat) {
                            proof {
                                assert(benchmark_wf(*b));
                                lemma_stat_in_range(b.runs@[f as int]@.stats, stat@);
                            }
                            r.push(v);
                        }
                    },
                    None => {
                        proof {
                            lemma_first_match_none(rv, t, s);
                        }
                    },
                }
            }
        }
        proof {
            assert(r@ =~= bucket_points(benches@.subrange(0, i + 1), nv, t, s));
        }
        i = i + 1;
    }
    proof {
        assert(benches@.subrange(0, benches@.len() as int) =~= benches@);
    }
    r
}

/// The column value of one bucket: the rounded mean of its samples, or no
/// value when the bucket is excluded or has no samples.
fn bucket_avg(
    benches: &Vec<(String, Option<Benchmark>)>,
    names: Option<&Vec<String>>,
    t: Tier,
    s: Scen,
    included: bool,
    stat: &String,
) -> (r: Option<i64>)
    requires
        forall|i: int|
            0 <= i < benches@.len() ==> ((#[trigger] benches@[i]).1 matches Some(b)
                ==> benchmark_wf(b)),
        stat@ == "wall-time"@,
    ensures
        matches_avg(
            r,
            if included {
                bucket_points(benches@, names_view(names), t, s)
            } else {
                Seq::empty()
            },
        ),
{
    if !included {
        return None;
    }
    let points = bucket_for(benches, names, t, s, stat);
    average(&points)
}

/// Whether the version a sort key came from supports incremental
/// compilation.
fn supports_from_key(key: &VersionKey, Ghost(name): Ghost<Seq<char>>) -> (r: bool)
    requires
        key_of(name) == Some(*key),
    ensures
        r == incr_ok(name),
{
    if key.0 == 0 {
        key.1 > 1 || (key.1 == 1 && key.2 >= 24)
    } else {
        true
    }
}

/// A sort item is a reference build's name with its key.
spec fn item_ok(data: Snapshot, it: VersionItem) -> bool {
    key_of(it.1@) == Some(it.0) && artifact_has_key(data, it.1@)
}

/// Keys and orders the reference-build names.  Fails when a name is neither
/// a semantic version nor "beta".
fn key_versions(data: &Snapshot) -> (r: ServerResult<Vec<VersionItem>>)
    requires
        snapshot_wf(*data),
    ensures
        match r {
            Err(e) => e == ServerError::UnexpectedVersion && bad_version(*data),
            Ok(items) => {
                &&& !bad_version(*data)
                &&& items@.len() == data.artifact_data@.len()
                &&& sorted_by_key(items@)
                &&& forall|q: int| 0 <= q < items@.len() ==> item_ok(*data, #[trigger] items@[q])
                &&& forall|j: int|
                    0 <= j < data.artifact_data@.len() ==> items_contain(
                        items@,
                        (#[trigger] data.artifact_data@[j]).0@,
                    )
            },
        },
{
    proof {
        reveal_strlit("beta");
    }
    let mut items: Vec<VersionItem> = Vec::new();
    let mut i: usize = 0;
    while i < data.artifact_data.len()
        invariant
            snapshot_wf(*data),
            0 <= i <= data.artifact_data@.len(),
            items@.len() == i,
            forall|k: int| 0 <= k < i ==> (#[trigger] items@[k]).1@ == data.artifact_data@[k].0@,
            forall|k: int| 0 <= k < i ==> item_ok(*data, #[trigger] items@[k]),
            forall|k: int| 0 <= k < i ==> key_of((#[trigger] data.artifact_data@[k]).0@) is Some,
        decreases data.artifact_data@.len() - i,
    {
        let name = &data.artifact_data[i].0;
        match parse_version(name.as_str()) {
            Some(t) => {
                items.push(((0, t.0, t.1, t.2), name.clone()));
            },
            None => {
                if str_eq(name.as_str(), "beta") {
                    items.push(((1, 0, 0, 0), name.clone()));
                } else {
                    proof {
                        reveal_strlit("beta");
                        assert(key_of(data.artifact_data@[i as int].0@) is None);
                    }
                    return Err(ServerError::UnexpectedVersion);
                }
            },
        }
        proof {
            assert(artifact_has_key(*data, items@[i as int].1@)) by {
                assert(data.artifact_data@[i as int].0@ == items@[i as int].1@);
            }
        }
        i = i + 1;
    }
    assert(!bad_version(*data));
    let ghost orig = items@;
    let items = sort_versions(items);
    proof {
        assert forall|q: int| 0 <= q < items@.len() implies item_ok(
            *data,
            #[trigger] items@[q],
        ) by {
            assert(items@.contains(items@[q]));
            assert(orig.contains(items@[q]));
            let j = choose|j: int| 0 <= j < orig.len() && orig[j] == items@[q];
            assert(item_ok(*data, orig[j]));
        }
        assert forall|j: int| 0 <= j < data.artifact_data@.len() implies items_contain(
            items@,
            (#[trigger] data.artifact_data@[j]).0@,
        ) by {
            assert(orig[j].1@ == data.artifact_data@[j].0@);
            assert(orig.contains(orig[j]));
            assert(items@.contains(orig[j]));
            let q = choose|q: int| 0 <= q < items@.len() && items@[q] == orig[j];
            assert(items@[q].1@ == data.artifact_data@[j].0@);
        }
    }
    Ok(items)
}

/// Finds the "beta" sweep and checks that the newest commit carries every
/// benchmark it succeeded on; hands back those benchmark names.
fn beta_and_master(data: &Snapshot) -> (r: ServerResult<Vec<String>>)
    requires
        snapshot_wf(*data),
    ensures
        match r {
            Err(e) => match e {
                ServerError::MissingBetaArtifact => !has_beta(*data),
                ServerError::InconsistentMaster => has_beta(*data) && !master_ok(*data),
                _ => false,
            },
            Ok(names) => has_beta(*data) && master_ok(*data) && names@ == ok_keys(
                beta_cd(*data).benchmarks@,
            ),
        },
{
    proof {
        reveal_strlit("beta");
    }
    let beta_name = String::from_str("beta");
    let bi = match assoc_index(&data.artifact_data, &beta_name) {
        Some(bi) => bi,
        None => {
            return Err(ServerError::MissingBetaArtifact);
        },
    };
    assert(has_beta(*data));
    assert(assoc_get(data.artifact_data@, "beta"@) == Some(data.artifact_data@[bi as int].1));
    let beta_names = collect_ok_keys(&data.artifact_data[bi].1.benchmarks);
    let last_idx = data.commits.len() - 1;
    let last = &data.commits[last_idx];
    proof {
        assert(data.commits@.last() == data.commits@[last_idx as int]);
    }
    let mut k: usize = 0;
    while k < beta_names.len()
        invariant
            snapshot_wf(*data),
            has_beta(*data),
            bi < data.artifact_data@.len(),
            assoc_get(data.artifact_data@, "beta"@) == Some(data.artifact_data@[bi as int].1),
            last_idx == data.commits@.len() - 1,
            *last == data.commits@[last_idx as int],
            *last == data.commits@.last(),
            beta_names@ == ok_keys(beta_cd(*data).benchmarks@),
            0 <= k <= beta_names@.len(),
            forall|q: int|
                0 <= q < k ==> assoc_get(last.benchmarks@, (#[trigger] beta_names@[q])@) is Some,
        decreases beta_names@.len() - k,
    {
        match assoc_index(&last.benchmarks, &beta_names[k]) {
            Some(_) => {},
            None => {
                proof {
                    let names = ok_keys(beta_cd(*data).benchmarks@);
                    assert(names[k as int] == beta_names@[k as int]);
                    assert(assoc_get(last.benchmarks@, names[k as int]@) is None);
                    assert(!master_ok(*data));
                }
                return Err(ServerError::InconsistentMaster);
            },
        }
        k = k + 1;
    }
    proof {
        let names = ok_keys(beta_cd(*data).benchmarks@);
        assert(names == beta_names@);
        assert forall|q2: int| 0 <= q2 < names.len() implies assoc_get(
            data.commits@.last().benchmarks@,
            (#[trigger] names[q2])@,
        ) is Some by {
            assert(names[q2] == beta_names@[q2]);
            assert(assoc_get(last.benchmarks@, beta_names@[q2]@) is Some);
        }
        assert(master_ok(*data));
    }
    Ok(beta_names)
}

/// One tier's four columns over every listed version, master row last.
#[verifier::rlimit(50)]
fn tier_cases(
    data: &Snapshot,
    items: &Vec<VersionItem>,
    beta_names: &Vec<String>,
    t: Tier,
    wall: &String,
) -> (c: DashboardCases)
    requires
        snapshot_wf(*data),
        wall@ == "wall-time"@,
        beta_names@ == ok_keys(beta_cd(*data).benchmarks@),
        forall|q: int| 0 <= q < items@.len() ==> item_ok(*data, #[trigger] items@[q]),
    ensures
        c.clean_averages@.len() == items@.len() + 1,
        c.base_incr_averages@.len() == items@.len() + 1,
        c.clean_incr_averages@.len() == items@.len() + 1,
        c.println_incr_averages@.len() == items@.len() + 1,
        forall|q: int|
            0 <= q < items@.len() ==> tier_row_ok(
                *data,
                (#[trigger] items@[q]).1@,
                t,
                c.clean_averages@[q],
                c.base_incr_averages@[q],
                c.clean_incr_averages@[q],
                c.println_incr_averages@[q],
            ),
        master_tier_row_ok(
            *data,
            t,
            c.clean_averages@[items@.len() as int],
            c.base_incr_averages@[items@.len() as int],
            c.clean_incr_averages@[items@.len() as int],
            c.println_incr_averages@[items@.len() as int],
        ),
{
    let n = items.len();
    let mut clean: Vec<Option<i64>> = Vec::new();
    let mut base: Vec<Option<i64>> = Vec::new();
    let mut cleani: Vec<Option<i64>> = Vec::new();
    let mut printl: Vec<Option<i64>> = Vec::new();
    let mut v: usize = 0;
    while v < n
        invariant
            snapshot_wf(*data),
            n == items@.len(),
            wall@ == "wall-time"@,
            forall|q: int| 0 <= q < n ==> item_ok(*data, #[trigger] items@[q]),
            0 <= v <= n,
            clean@.len() == v && base@.len() == v && cleani@.len() == v && printl@.len() == v,
            forall|q: int|
                0 <= q < v ==> tier_row_ok(
                    *data,
                    (#[trigger] items@[q]).1@,
                    t,
                    clean@[q],
                    base@[q],
                    cleani@[q],
                    printl@[q],
                ),
        decreases n - v,
    {
        let name = &items[v].1;
        let ix = match assoc_index(&data.artifact_data, name) {
            Some(ix) => ix,
            None => {
                proof {
                    assert(item_ok(*data, items@[v as int]));
                    assert(false);
                }
                return DashboardCases {
                    clean_averages: clean,
                    base_incr_averages: base,
                    clean_incr_averages: cleani,
                    println_incr_averages: printl,
                };
            },
        };
        let cd = &data.artifact_data[ix].1;
        proof {
            assert(commit_data_wf(data.artifact_data@[ix as int].1));
            assert(assoc_get(data.artifact_data@, name@) == Some(
                data.artifact_data@[ix as int].1,
            ));
            assert(item_ok(*data, items@[v as int]));
        }
        let supports = supports_from_key(&items[v].0, Ghost(name@));
        clean.push(bucket_avg(&cd.benchmarks, None, t, Scen::Clean, true, wall));
        base.push(bucket_avg(&cd.benchmarks, None, t, Scen::BaseIncr, supports, wall));
        cleani.push(bucket_avg(&cd.benchmarks, None, t, Scen::CleanIncr, supports, wall));
        printl.push(bucket_avg(&cd.benchmarks, None, t, Scen::PrintlnIncr, supports, wall));
        proof {
            assert(tier_row_ok(
                *data,
                items@[v as int].1@,
                t,
                clean@[v as int],
                base@[v as int],
                cleani@[v as int],
                printl@[v as int],
            ));
        }
        v = v + 1;
    }
    let last_idx = data.commits.len() - 1;
    let last = &data.commits[last_idx];
    proof {
        assert(data.commits@.last() == data.commits@[last_idx as int]);
        assert(commit_data_wf(data.commits@[last_idx as int]));
    }
    clean.push(bucket_avg(&last.benchmarks, Some(beta_names), t, Scen::Clean, true, wall));
    base.push(bucket_avg(&last.benchmarks, Some(beta_names), t, Scen::BaseIncr, true, wall));
    cleani.push(bucket_avg(&last.benchmarks, Some(beta_names), t, Scen::CleanIncr, true, wall));
    printl.push(bucket_avg(&last.benchmarks, Some(beta_names), t, Scen::PrintlnIncr, true, wall));
    DashboardCases {
        clean_averages: clean,
        base_incr_averages: base,
        clean_incr_averages: cleani,
        println_incr_averages: printl,
    }
}

/// The version column: each listed name, then the abbreviated master entry.
fn version_names(data: &Snapshot, items: &Vec<VersionItem>) -> (r: Vec<String>)
    requires
        snapshot_wf(*data),
    ensures
        r@.len() == items@.len() + 1,
        forall|q: int| 0 <= q < items@.len() ==> (#[trigger] r@[q])@ == items@[q].1@,
        r@[items@.len() as int]@ == "master: "@ + data.commits@.last().commit.sha@.subrange(0, 8),
{
    let mut versions: Vec<String> = Vec::new();
    let mut v: usize = 0;
    while v < items.len()
        invariant
            0 <= v <= items@.len(),
            versions@.len() == v,
            forall|q: int| 0 <= q < v ==> (#[trigger] versions@[q])@ == items@[q].1@,
        decreases items@.len() - v,
    {
        versions.push(items[v].1.clone());
        v = v + 1;
    }
    let last_idx = data.commits.len() - 1;
    let last = &data.commits[last_idx];
    proof {
        assert(data.commits@.last() == data.commits@[last_idx as int]);
        assert(commit_data_wf(data.commits@[last_idx as int]));
    }
    let sha8 = last.commit.sha.as_str().substring_char(0, 8);
    let label = String::from_str("master: ").concat(sha8);
    versions.push(label);
    versions
}

/// The dashboard table for the fixed wall-time metric.  Fails when a
/// reference-build name is neither a semantic version nor "beta", when no
/// "beta" build is present, or when the newest commit lacks a benchmark the
/// "beta" build succeeded on.
#[verifier::rlimit(50)]
pub fn handle_dashboard(data: &Snapshot) -> (r: ServerResult<DashboardResponse>)
    requires
        snapshot_wf(*data),
    ensures
        match r {
            Err(e) => match e {
                ServerError::UnexpectedVersion => bad_version(*data),
                ServerError::MissingBetaArtifact => !bad_version(*data) && !has_beta(*data),
                ServerError::InconsistentMaster => !bad_version(*data) && has_beta(*data)
                    && !master_ok(*data),
                _ => false,
            },
            Ok(resp) => !bad_version(*data) && has_beta(*data) && master_ok(*data)
                && dashboard_ok(*data, resp),
        },
{
    let wall = String::from_str("wall-time");
    proof {
        reveal_strlit("wall-time");
    }
    let items = match key_versions(data) {
        Ok(items) => items,
        Err(e) => {
            return Err(e);
        },
    };
    let beta_names = match beta_and_master(data) {
        Ok(names) => names,
        Err(e) => {
            return Err(e);
        },
    };
    let versions = version_names(data, &items);
    let check = tier_cases(data, &items, &beta_names, Tier::Check, &wall);
    let debug = tier_cases(data, &items, &beta_names, Tier::Debug, &wall);
    let opt = tier_cases(data, &items, &beta_names, Tier::Opt, &wall);
    let resp = DashboardResponse { versions, check, debug, opt };
    proof {
        let nn = data.artifact_data@.len() as int;
        assert(resp.versions@.len() == nn + 1);
        assert forall|i2: int| 0 <= i2 < nn implies artifact_has_key(
            *data,
            (#[trigger] resp.versions@[i2])@,
        ) by {
            assert(item_ok(*data, items@[i2]));
            assert(resp.versions@[i2]@ == items@[i2].1@);
        }
        assert forall|j: int| 0 <= j < nn implies listed_before(
            resp.versions@,
            nn,
            (#[trigger] data.artifact_data@[j]).0@,
        ) by {
            assert(items_contain(items@, data.artifact_data@[j].0@));
            let q = choose|q: int|
                0 <= q < items@.len() && (#[trigger] items@[q]).1@ == data.artifact_data@[j].0@;
            assert(resp.versions@[q]@ == data.artifact_data@[j].0@);
        }
        assert forall|i2: int| 0 <= i2 < nn implies key_of(
            (#[trigger] resp.versions@[i2])@,
        ) is Some by {
            assert(item_ok(*data, items@[i2]));
        }
        assert forall|i2: int, j: int| 0 <= i2 < j < nn implies key_le(
            key_of((#[trigger] resp.versions@[i2])@)->0,
            key_of((#[trigger] resp.versions@[j])@)->0,
        ) by {
            assert(item_ok(*data, items@[i2]));
            assert(item_ok(*data, items@[j]));
            assert(key_le(items@[i2].0, items@[j].0));
        }
        assert forall|q: int| 0 <= q < nn implies tier_row_ok(
            *data,
            (#[trigger] resp.versions@[q])@,
            Tier::Check,
            resp.check.clean_averages@[q],
            resp.check.base_incr_averages@[q],
            resp.check.clean_incr_averages@[q],
            resp.check.println_incr_averages@[q],
        ) by {
            assert(resp.versions@[q]@ == items@[q].1@);
        }
        assert forall|q: int| 0 <= q < nn implies tier_row_ok(
            *data,
            (#[trigger] resp.versions@[q])@,
            Tier::Debug,
            resp.debug.clean_averages@[q],
            resp.debug.base_incr_averages@[q],
            resp.debug.clean_incr_averages@[q],
            resp.debug.println_incr_averages@[q],
        ) by {
            assert(resp.versions@[q]@ == items@[q].1@);
        }
        assert forall|q: int| 0 <= q < nn implies tier_row_ok(
            *data,
            (#[trigger] resp.versions@[q])@,
            Tier::Opt,
            resp.opt.clean_averages@[q],
            resp.opt.base_incr_averages@[q],
            resp.opt.clean_incr_averages@[q],
            resp.opt.println_incr_averages@[q],
        ) by {
            assert(resp.versions@[q]@ == items@[q].1@);
        }
        assert(dashboard_ok(*data, resp));
    }
    Ok(resp)
}

} // verus!
