//! Trend graphs: per-commit series for every benchmark-tier bucket, each
//! point carrying its absolute value and its percent change from the start of
//! its series, plus synthesized summary series normalized against the first
//! observed baseline full build of each tier, and per-benchmark maxima for
//! axis scaling.

use vstd::prelude::*;

verus! {

use vstd::string::{StringExecFns, StrSliceExecFns};
use crate::model::{
    KindV, RunKind, RunV, ServerError, ServerResult, Snapshot, assoc_index, kind_label,
    snapshot_wf, str_eq,
};
use crate::fixed::{
    amount_in_range, clamp_amount, clamp_i64, mean, mean_spec, pct_spec, percent_change,
    ratio_amount, ratio_spec,
};
use crate::date_data::{DateDataV, TripleV, date_data_wf};
use crate::day_range::{all_empty, days_of, days_view, handle_data, trim_spec};

/// One plotted point.
pub struct GraphData {
    /// Display label of the run's scenario.
    pub benchmark: String,
    /// Commit the point belongs to.
    pub commit: String,
    /// The previous plotted commit, if any.
    pub prev_commit: Option<String>,
    /// The value in micro-units (for summary series, the normalized ratio).
    pub absolute: i64,
    /// Percent change from the first point of the series, in micro-units.
    pub percent: i64,
    /// What is plotted: the absolute value or the percent, per request flag.
    pub y: i64,
    /// Milliseconds since the epoch.
    pub x: u64,
}

/// The graph response: per benchmark-tier key, per run label, the series of
/// points; and per un-suffixed benchmark name the maximum plotted value.
pub struct GraphResponse {
    pub benchmarks: Vec<(String, Vec<(String, Vec<GraphData>)>)>,
    pub max: Vec<(String, i64)>,
}

/// A series is sound: every value is a measurement in range, the plotted
/// value obeys the absolute/percent request flag, and every percent is the
/// change from the series' first value.
pub open spec fn graph_series_ok(s: Seq<GraphData>, absolute: bool) -> bool {
    &&& forall|i: int| 0 <= i < s.len() ==> amount_in_range((#[trigger] s[i]).absolute)
    &&& forall|i: int|
        0 <= i < s.len() ==> (#[trigger] s[i]).y == if absolute {
            s[i].absolute
        } else {
            s[i].percent
        }
    &&& forall|i: int|
        0 <= i < s.len() ==> (#[trigger] s[i]).percent == clamp_i64(
            pct_spec(s[0].absolute as int, s[i].absolute as int),
        )
}

/// The point belongs to one of the plotted days: it carries that day's
/// commit and its date in milliseconds.
pub open spec fn point_from_day(days: Seq<DateDataV>, p: GraphData) -> bool {
    exists|d: int|
        0 <= d < days.len() && p.commit@ == (#[trigger] days[d]).commit && p.x == days[d].date
            * 1000
}

/// Ghost image of one plotted point.
pub struct PointV {
    pub benchmark: Seq<char>,
    pub commit: Seq<char>,
    pub prev: Option<Seq<char>>,
    pub absolute: i64,
    pub percent: i64,
    pub y: i64,
    pub x: u64,
}

pub open spec fn point_view(p: GraphData) -> PointV {
    PointV {
        benchmark: p.benchmark@,
        commit: p.commit@,
        prev: match p.prev_commit {
            None => None,
            Some(s) => Some(s@),
        },
        absolute: p.absolute,
        percent: p.percent,
        y: p.y,
        x: p.x,
    }
}

pub open spec fn points_view(v: Seq<GraphData>) -> Seq<PointV> {
    v.map(|i: int, p: GraphData| point_view(p))
}

/// Ghost image of one entry's series map.
pub open spec fn series_list_view(v: Seq<(String, Vec<GraphData>)>) -> Seq<
    (Seq<char>, Seq<PointV>),
> {
    v.map(|i: int, e: (String, Vec<GraphData>)| (e.0@, points_view(e.1@)))
}

/// Ghost image of the whole response map.
pub open spec fn entries_view(v: Seq<(String, Vec<(String, Vec<GraphData>)>)>) -> Seq<
    (Seq<char>, Seq<(Seq<char>, Seq<PointV>)>),
> {
    v.map(
        |i: int, e: (String, Vec<(String, Vec<GraphData>)>)| (e.0@, series_list_view(e.1@)),
    )
}

/// Index of the first pair bound to `k`, if any.
pub open spec fn find_key<T>(s: Seq<(Seq<char>, T)>, k: Seq<char>) -> Option<int>
    decreases s.len(),
{
    if s.len() == 0 {
        None
    } else if s[0].0 == k {
        Some(0)
    } else {
        match find_key(s.drop_first(), k) {
            None => None,
            Some(i) => Some(i + 1),
        }
    }
}

pub proof fn lemma_find_key_at<T>(s: Seq<(Seq<char>, T)>, k: Seq<char>, i: int)
    requires
        0 <= i < s.len(),
        s[i].0 == k,
        forall|j: int| 0 <= j < i ==> (#[trigger] s[j]).0 != k,
    ensures
        find_key(s, k) == Some(i),
    decreases i,
{
    if i > 0 {
        lemma_find_key_at(s.drop_first(), k, i - 1);
    }
}

pub proof fn lemma_find_key_none<T>(s: Seq<(Seq<char>, T)>, k: Seq<char>)
    requires
        forall|j: int| 0 <= j < s.len() ==> (#[trigger] s[j]).0 != k,
    ensures
        find_key(s, k) is None,
    decreases s.len(),
{
    if s.len() > 0 {
        lemma_find_key_none(s.drop_first(), k);
    }
}

/// The point one sample yields: the percent is the change from the series'
/// first value (zero when the point opens the series), the plotted value
/// follows the absolute/percent request flag.
pub open spec fn mk_point(
    benchmark: Seq<char>,
    commit: Seq<char>,
    prev: Option<Seq<char>>,
    value: i64,
    absolute: bool,
    x: u64,
    first: Option<i64>,
) -> PointV {
    let pct: i64 = match first {
        None => 0,
        Some(f) => clamp_i64(pct_spec(f as int, value as int)) as i64,
    };
    PointV {
        benchmark,
        commit,
        prev,
        absolute: value,
        percent: pct,
        y: if absolute {
            value
        } else {
            pct
        },
        x,
    }
}

/// Appends one sample to the series named `label`, creating the series when
/// it is new.
pub open spec fn series_add(
    ss: Seq<(Seq<char>, Seq<PointV>)>,
    label: Seq<char>,
    benchmark: Seq<char>,
    commit: Seq<char>,
    prev: Option<Seq<char>>,
    value: i64,
    absolute: bool,
    x: u64,
) -> Seq<(Seq<char>, Seq<PointV>)> {
    match find_key(ss, label) {
        None => ss.push(
            (label, seq![mk_point(benchmark, commit, prev, value, absolute, x, None)]),
        ),
        Some(i) => {
            let pts = ss[i].1;
            let first: Option<i64> = if pts.len() > 0 {
                Some(pts[0].absolute)
            } else {
                None
            };
            ss.update(
                i,
                (label, pts.push(mk_point(benchmark, commit, prev, value, absolute, x, first))),
            )
        },
    }
}

/// Appends one sample under the benchmark-tier key, creating the entry when
/// it is new.
pub open spec fn entries_add(
    es: Seq<(Seq<char>, Seq<(Seq<char>, Seq<PointV>)>)>,
    key: Seq<char>,
    label: Seq<char>,
    benchmark: Seq<char>,
    commit: Seq<char>,
    prev: Option<Seq<char>>,
    value: i64,
    absolute: bool,
    x: u64,
) -> Seq<(Seq<char>, Seq<(Seq<char>, Seq<PointV>)>)> {
    match find_key(es, key) {
        None => es.push(
            (key, series_add(Seq::empty(), label, benchmark, commit, prev, value, absolute, x)),
        ),
        Some(i) => es.update(
            i,
            (key, series_add(es[i].1, label, benchmark, commit, prev, value, absolute, x)),
        ),
    }
}

/// The previous plotted commit of day `d`: the commit of day `d - 1`.
pub open spec fn prev_of(days: Seq<DateDataV>, d: int) -> Option<Seq<char>> {
    if d <= 0 {
        None
    } else {
        Some(days[d - 1].commit)
    }
}

/// Fold of the first `n` samples of one day entry into a series map.
pub open spec fn sl_fold(
    sl: Seq<(Seq<char>, Seq<PointV>)>,
    ts: Seq<TripleV>,
    n: int,
    commit: Seq<char>,
    prev: Option<Seq<char>>,
    x: u64,
    absolute: bool,
) -> Seq<(Seq<char>, Seq<PointV>)>
    decreases n,
{
    if n <= 0 {
        sl
    } else {
        let s2 = sl_fold(sl, ts, n - 1, commit, prev, x, absolute);
        series_add(s2, ts[n - 1].0, ts[n - 1].1.label(), commit, prev, ts[n - 1].2, absolute, x)
    }
}

/// Fold of the first `n` samples of one day entry into the response map.
pub open spec fn reg_add_triples(
    es: Seq<(Seq<char>, Seq<(Seq<char>, Seq<PointV>)>)>,
    key: Seq<char>,
    ts: Seq<TripleV>,
    n: int,
    commit: Seq<char>,
    prev: Option<Seq<char>>,
    x: u64,
    absolute: bool,
) -> Seq<(Seq<char>, Seq<(Seq<char>, Seq<PointV>)>)>
    decreases n,
{
    if n <= 0 {
        es
    } else {
        let es2 = reg_add_triples(es, key, ts, n - 1, commit, prev, x, absolute);
        entries_add(
            es2,
            key,
            ts[n - 1].0,
            ts[n - 1].1.label(),
            commit,
            prev,
            ts[n - 1].2,
            absolute,
            x,
        )
    }
}

/// Fold of one day's first `n` entries.
pub open spec fn reg_add_day(
    es: Seq<(Seq<char>, Seq<(Seq<char>, Seq<PointV>)>)>,
    dd: DateDataV,
    n: int,
    prev: Option<Seq<char>>,
    absolute: bool,
) -> Seq<(Seq<char>, Seq<(Seq<char>, Seq<PointV>)>)>
    decreases n,
{
    if n <= 0 {
        es
    } else {
        let es2 = reg_add_day(es, dd, n - 1, prev, absolute);
        reg_add_triples(
            es2,
            dd.data[n - 1].0,
            dd.data[n - 1].1,
            dd.data[n - 1].1.len() as int,
            dd.commit,
            prev,
            (dd.date * 1000) as u64,
            absolute,
        )
    }
}

/// The regular series of the response: every sample of the first `n` trimmed
/// days, in day order, appended under its benchmark-tier key and run label.
pub open spec fn reg_fold(days: Seq<DateDataV>, n: int, absolute: bool) -> Seq<
    (Seq<char>, Seq<(Seq<char>, Seq<PointV>)>),
>
    decreases n,
{
    if n <= 0 {
        Seq::empty()
    } else {
        reg_add_day(
            reg_fold(days, n - 1, absolute),
            days[n - 1],
            days[n - 1].data.len() as int,
            prev_of(days, n - 1),
            absolute,
        )
    }
}

/// Ghost image of one summary group: a scenario shared across benchmarks of
/// one tier and the samples collected for it on one day.
pub struct GroupV {
    pub release: bool,
    pub check: bool,
    pub kind: KindV,
    pub values: Seq<i64>,
}

/// Index of the first group with this key, if any.
pub open spec fn find_group(gs: Seq<GroupV>, r: bool, c: bool, k: KindV) -> Option<int>
    decreases gs.len(),
{
    if gs.len() == 0 {
        None
    } else if gs[0].release == r && gs[0].check == c && gs[0].kind == k {
        Some(0)
    } else {
        match find_group(gs.drop_first(), r, c, k) {
            None => None,
            Some(i) => Some(i + 1),
        }
    }
}

pub proof fn lemma_find_group_at(gs: Seq<GroupV>, r: bool, c: bool, k: KindV, i: int)
    requires
        0 <= i < gs.len(),
        gs[i].release == r && gs[i].check == c && gs[i].kind == k,
        forall|j: int|
            0 <= j < i ==> !((#[trigger] gs[j]).release == r && gs[j].check == c && gs[j].kind
                == k),
    ensures
        find_group(gs, r, c, k) == Some(i),
    decreases i,
{
    if i > 0 {
        lemma_find_group_at(gs.drop_first(), r, c, k, i - 1);
    }
}

pub proof fn lemma_find_group_none(gs: Seq<GroupV>, r: bool, c: bool, k: KindV)
    requires
        forall|j: int|
            0 <= j < gs.len() ==> !((#[trigger] gs[j]).release == r && gs[j].check == c
                && gs[j].kind == k),
    ensures
        find_group(gs, r, c, k) is None,
    decreases gs.len(),
{
    if gs.len() > 0 {
        lemma_find_group_none(gs.drop_first(), r, c, k);
    }
}

/// Appends one sample to its group, creating the group when it is new.
pub open spec fn groups_add(gs: Seq<GroupV>, r: bool, c: bool, k: KindV, v: i64) -> Seq<GroupV> {
    match find_group(gs, r, c, k) {
        None => gs.push(GroupV { release: r, check: c, kind: k, values: seq![v] }),
        Some(i) => gs.update(
            i,
            GroupV { release: r, check: c, kind: k, values: gs[i].values.push(v) },
        ),
    }
}

/// A benchmark-tier entry contributes to the summary only when it carries
/// both a baseline full build and a println rebuild.
pub open spec fn entry_qualifies(ts: Seq<TripleV>) -> bool {
    (exists|i: int| 0 <= i < ts.len() && (#[trigger] ts[i]).1.is_base_compile()) && (exists|i: int|
        0 <= i < ts.len() && (#[trigger] ts[i]).1.is_println_incr())
}

/// Non-println patches are excluded from the summary.
pub open spec fn sample_included(rv: RunV) -> bool {
    !(rv.is_patch() && !rv.is_println_incr())
}

/// Fold of one qualifying entry's first `n` samples into the day's groups.
pub open spec fn grp_add_triples(gs: Seq<GroupV>, ts: Seq<TripleV>, n: int) -> Seq<GroupV>
    decreases n,
{
    if n <= 0 {
        gs
    } else {
        let g2 = grp_add_triples(gs, ts, n - 1);
        if sample_included(ts[n - 1].1) {
            groups_add(g2, ts[n - 1].1.release, ts[n - 1].1.check, ts[n - 1].1.kind, ts[n - 1].2)
        } else {
            g2
        }
    }
}

/// Fold of one day's first `n` entries into its groups.
pub open spec fn grp_add_entries(gs: Seq<GroupV>, dd: DateDataV, n: int) -> Seq<GroupV>
    decreases n,
{
    if n <= 0 {
        gs
    } else {
        let g2 = grp_add_entries(gs, dd, n - 1);
        if entry_qualifies(dd.data[n - 1].1) {
            grp_add_triples(g2, dd.data[n - 1].1, dd.data[n - 1].1.len() as int)
        } else {
            g2
        }
    }
}

/// One day's summary groups, keyed by scenario, in first-appearance order.
pub open spec fn day_groups(dd: DateDataV) -> Seq<GroupV> {
    grp_add_entries(Seq::empty(), dd, dd.data.len() as int)
}

/// A group's mean sample, on the fixed-point grid.
pub open spec fn grp_mean(vals: Seq<i64>) -> i64 {
    if vals.len() == 0 {
        0
    } else {
        mean_spec(vals) as i64
    }
}

/// The per-tier first-seen baseline means: (check, debug, opt).
pub type Inits = (Option<i64>, Option<i64>, Option<i64>);

/// Folds one day's groups into the baselines: the first baseline full-build
/// group seen for a tier fixes that tier's normalization mean for good.
pub open spec fn capture_groups(init: Inits, gs: Seq<GroupV>, n: int) -> Inits
    decreases n,
{
    if n <= 0 {
        init
    } else {
        let i2 = capture_groups(init, gs, n - 1);
        let g = gs[n - 1];
        if g.kind is Clean {
            if g.release {
                if i2.2 is None {
                    (i2.0, i2.1, Some(grp_mean(g.values)))
                } else {
                    i2
                }
            } else if g.check {
                if i2.0 is None {
                    (Some(grp_mean(g.values)), i2.1, i2.2)
                } else {
                    i2
                }
            } else {
                if i2.1 is None {
                    (i2.0, Some(grp_mean(g.values)), i2.2)
                } else {
                    i2
                }
            }
        } else {
            i2
        }
    }
}

/// The three summary series maps: (check, debug, opt).
pub type Sums = (
    Seq<(Seq<char>, Seq<PointV>)>,
    Seq<(Seq<char>, Seq<PointV>)>,
    Seq<(Seq<char>, Seq<PointV>)>,
);

/// Plots one group: its mean normalized by its tier's first-seen baseline
/// mean; a group whose tier has no baseline yet is the internal error.
pub open spec fn apply_group(
    sums: Sums,
    init: Inits,
    g: GroupV,
    commit: Seq<char>,
    prev: Option<Seq<char>>,
    x: u64,
    absolute: bool,
) -> Option<Sums> {
    let slot: Option<i64> = if g.release {
        init.2
    } else if g.check {
        init.0
    } else {
        init.1
    };
    match slot {
        None => None,
        Some(b) => {
            let v = clamp_amount(ratio_spec(grp_mean(g.values) as int, b as int)) as i64;
            let lbl = kind_label(g.kind);
            if g.release {
                Some((sums.0, sums.1, series_add(sums.2, lbl, lbl, commit, prev, v, absolute, x)))
            } else if g.check {
                Some((series_add(sums.0, lbl, lbl, commit, prev, v, absolute, x), sums.1, sums.2))
            } else {
                Some((sums.0, series_add(sums.1, lbl, lbl, commit, prev, v, absolute, x), sums.2))
            }
        },
    }
}

/// Plots one day's first `n` groups, in group order.
pub open spec fn apply_groups(
    sums: Sums,
    init: Inits,
    gs: Seq<GroupV>,
    n: int,
    commit: Seq<char>,
    prev: Option<Seq<char>>,
    x: u64,
    absolute: bool,
) -> Option<Sums>
    decreases n,
{
    if n <= 0 {
        Some(sums)
    } else {
        match apply_groups(sums, init, gs, n - 1, commit, prev, x, absolute) {
            None => None,
            Some(s2) => apply_group(s2, init, gs[n - 1], commit, prev, x, absolute),
        }
    }
}

/// The summary of the first `n` trimmed days: per day, group the qualifying
/// samples, capture each tier's first baseline mean, then plot every group's
/// normalized mean; `None` when some group precedes its tier's baseline.
pub open spec fn sum_fold(days: Seq<DateDataV>, n: int, absolute: bool) -> Option<(Sums, Inits)>
    decreases n,
{
    if n <= 0 {
        Some((((Seq::empty(), Seq::empty(), Seq::empty())), ((None, None, None))))
    } else {
        match sum_fold(days, n - 1, absolute) {
            None => None,
            Some((sums, init)) => {
                let dd = days[n - 1];
                let gs = day_groups(dd);
                let init2 = capture_groups(init, gs, gs.len() as int);
                match apply_groups(
                    sums,
                    init2,
                    gs,
                    gs.len() as int,
                    dd.commit,
                    prev_of(days, n - 1),
                    (dd.date * 1000) as u64,
                    absolute,
                ) {
                    None => None,
                    Some(s2) => Some((s2, init2)),
                }
            },
        }
    }
}

/// The whole expected response map: the regular series built from every
/// sample of the trimmed days, then the non-empty per-tier summary entries;
/// `None` when a summary group precedes its tier's first baseline.
pub open spec fn graph_spec(days: Seq<DateDataV>, absolute: bool) -> Option<
    Seq<(Seq<char>, Seq<(Seq<char>, Seq<PointV>)>)>,
> {
    match sum_fold(days, days.len() as int, absolute) {
        None => None,
        Some((sums, init)) => Some(
            reg_fold(days, days.len() as int, absolute) + (if sums.0.len() > 0 {
                seq![("Summary-check"@, sums.0)]
            } else {
                Seq::empty()
            }) + (if sums.1.len() > 0 {
                seq![("Summary-debug"@, sums.1)]
            } else {
                Seq::empty()
            }) + (if sums.2.len() > 0 {
                seq![("Summary-opt"@, sums.2)]
            } else {
                Seq::empty()
            }),
        ),
    }
}

/// One series entry of a benchmark-tier map is sound.
pub open spec fn series_entry_ok(
    e: (String, Vec<GraphData>),
    absolute: bool,
    days: Seq<DateDataV>,
) -> bool {
    &&& graph_series_ok(e.1@, absolute)
    &&& forall|k: int| 0 <= k < e.1@.len() ==> point_from_day(days, (#[trigger] e.1@[k]))
}

/// Every series of every benchmark-tier entry is sound.
pub open spec fn graph_entries_ok(
    entries: Seq<(String, Vec<(String, Vec<GraphData>)>)>,
    absolute: bool,
    days: Seq<DateDataV>,
) -> bool {
    forall|i: int, j: int|
        0 <= i < entries.len() && 0 <= j < entries[i].1@.len() ==> series_entry_ok(
            #[trigger] entries[i].1@[j],
            absolute,
            days,
        )
}

/// Maximum plotted value of a series, floored at zero.
pub open spec fn series_max(s: Seq<GraphData>) -> int
    decreases s.len(),
{
    if s.len() == 0 {
        0
    } else {
        let rest = series_max(s.drop_last());
        if s.last().y > rest {
            s.last().y as int
        } else {
            rest
        }
    }
}

/// Maximum plotted value over an entry's series, floored at zero.
pub open spec fn entry_max(ss: Seq<(String, Vec<GraphData>)>) -> int
    decreases ss.len(),
{
    if ss.len() == 0 {
        0
    } else {
        let rest = entry_max(ss.drop_last());
        let m = series_max(ss.last().1@);
        if m > rest {
            m
        } else {
            rest
        }
    }
}

/// The benchmark-tier key with its tier suffix removed.
pub open spec fn strip_tier(n: Seq<char>) -> Seq<char> {
    if n.len() >= 6 && n.subrange(n.len() - 6, n.len() as int) == "-check"@ {
        n.take(n.len() - 6)
    } else if n.len() >= 6 && n.subrange(n.len() - 6, n.len() as int) == "-debug"@ {
        n.take(n.len() - 6)
    } else if n.len() >= 4 && n.subrange(n.len() - 4, n.len() as int) == "-opt"@ {
        n.take(n.len() - 4)
    } else {
        n
    }
}

/// Maximum plotted value over all entries whose stripped key is `n`, floored
/// at zero.
pub open spec fn bench_max(
    entries: Seq<(String, Vec<(String, Vec<GraphData>)>)>,
    n: Seq<char>,
) -> int
    decreases entries.len(),
{
    if entries.len() == 0 {
        0
    } else {
        let rest = bench_max(entries.drop_last(), n);
        if strip_tier(entries.last().0@) == n {
            let m = entry_max(entries.last().1@);
            if m > rest {
                m
            } else {
                rest
            }
        } else {
            rest
        }
    }
}

/// Some maxima entry carries this name.
pub open spec fn max_listed(maxes: Seq<(String, i64)>, n: Seq<char>) -> bool {
    exists|i: int| 0 <= i < maxes.len() && (#[trigger] maxes[i]).0@ == n
}

proof fn lemma_bench_max_absent(
    entries: Seq<(String, Vec<(String, Vec<GraphData>)>)>,
    n: Seq<char>,
)
    requires
        forall|i: int| 0 <= i < entries.len() ==> strip_tier((#[trigger] entries[i]).0@) != n,
    ensures
        bench_max(entries, n) == 0,
    decreases entries.len(),
{
    if entries.len() > 0 {
        lemma_bench_max_absent(entries.drop_last(), n);
    }
}

/// The maxima list is correct for the entries: unique names, every entry's
/// stripped key listed, every listed value the true maximum.
pub open spec fn maxes_ok(
    maxes: Seq<(String, i64)>,
    entries: Seq<(String, Vec<(String, Vec<GraphData>)>)>,
) -> bool {
    &&& forall|a: int, b: int|
        0 <= a < b < maxes.len() ==> (#[trigger] maxes[a]).0@ != (#[trigger] maxes[b]).0@
    &&& forall|i: int|
        0 <= i < maxes.len() ==> (#[trigger] maxes[i]).1 == bench_max(entries, maxes[i].0@)
    &&& forall|i: int| 0 <= i < entries.len() ==> max_listed(maxes, strip_tier((#[trigger] entries[i]).0@))
}

/// Folding an entry's samples only rewrites that entry when it already
/// exists.
proof fn lemma_reg_fold_at(
    es: Seq<(Seq<char>, Seq<(Seq<char>, Seq<PointV>)>)>,
    idx: int,
    key: Seq<char>,
    ts: Seq<TripleV>,
    n: int,
    commit: Seq<char>,
    prev: Option<Seq<char>>,
    x: u64,
    absolute: bool,
)
    requires
        0 <= idx < es.len(),
        es[idx].0 == key,
        forall|j: int| 0 <= j < idx ==> (#[trigger] es[j]).0 != key,
    ensures
        reg_add_triples(es, key, ts, n, commit, prev, x, absolute) == es.update(
            idx,
            (key, sl_fold(es[idx].1, ts, n, commit, prev, x, absolute)),
        ),
    decreases n,
{
    if n <= 0 {
        assert(es.update(idx, (key, es[idx].1)) =~~= es);
    } else {
        lemma_reg_fold_at(es, idx, key, ts, n - 1, commit, prev, x, absolute);
        let es2 = reg_add_triples(es, key, ts, n - 1, commit, prev, x, absolute);
        assert(es2[idx].0 == key);
        assert(forall|j: int| 0 <= j < idx ==> (#[trigger] es2[j]).0 != key);
        lemma_find_key_at(es2, key, idx);
        assert(reg_add_triples(es, key, ts, n, commit, prev, x, absolute) =~~= es.update(
            idx,
            (key, sl_fold(es[idx].1, ts, n, commit, prev, x, absolute)),
        ));
    }
}

/// Folding a new entry's samples appends one entry holding all of them.
proof fn lemma_reg_fold_new(
    es: Seq<(Seq<char>, Seq<(Seq<char>, Seq<PointV>)>)>,
    key: Seq<char>,
    ts: Seq<TripleV>,
    n: int,
    commit: Seq<char>,
    prev: Option<Seq<char>>,
    x: u64,
    absolute: bool,
)
    requires
        forall|j: int| 0 <= j < es.len() ==> (#[trigger] es[j]).0 != key,
        n >= 1,
    ensures
        reg_add_triples(es, key, ts, n, commit, prev, x, absolute) == es.push(
            (key, sl_fold(Seq::empty(), ts, n, commit, prev, x, absolute)),
        ),
    decreases n,
{
    if n == 1 {
        lemma_find_key_none(es, key);
        reveal_with_fuel(reg_add_triples, 3);
        reveal_with_fuel(sl_fold, 3);
        assert(reg_add_triples(es, key, ts, 1, commit, prev, x, absolute) =~~= es.push(
            (key, sl_fold(Seq::empty(), ts, 1, commit, prev, x, absolute)),
        ));
    } else {
        lemma_reg_fold_new(es, key, ts, n - 1, commit, prev, x, absolute);
        let es2 = reg_add_triples(es, key, ts, n - 1, commit, prev, x, absolute);
        assert(es2[es.len() as int].0 == key);
        assert(forall|j: int| 0 <= j < es.len() ==> (#[trigger] es2[j]) == es[j]);
        lemma_find_key_at(es2, key, es.len() as int);
        assert(reg_add_triples(es, key, ts, n, commit, prev, x, absolute) =~~= es.push(
            (key, sl_fold(Seq::empty(), ts, n, commit, prev, x, absolute)),
        ));
    }
}

/// Every entry a day's summary carries has at least one sample.
proof fn lemma_day_entries_nonempty(
    benches: Seq<(String, Option<crate::model::Benchmark>)>,
    stat: Seq<char>,
)
    ensures
        forall|i: int|
            0 <= i < crate::date_data::day_entries(benches, stat).len() ==> (
            #[trigger] crate::date_data::day_entries(benches, stat)[i]).1.len() > 0,
    decreases benches.len(),
{
    if benches.len() > 0 {
        lemma_day_entries_nonempty(benches.drop_last(), stat);
        let de = crate::date_data::day_entries(benches, stat);
        let pre = crate::date_data::day_entries(benches.drop_last(), stat);
        assert forall|i: int| 0 <= i < de.len() implies (#[trigger] de[i]).1.len() > 0 by {
            if i < pre.len() {
                assert(de[i] == pre[i]);
            } else {
                match benches.last().1 {
                    Some(b) => {
                        assert(de[i] == crate::date_data::bench_entries(b, stat)[i - pre.len()]);
                    },
                    None => {},
                }
            }
        }
    }
}

/// A trimmed day is the summary of one well-formed commit of the selected
/// range.
proof fn lemma_trim_day_src(data: Snapshot, start: int, end: int, stat: Seq<char>, d: int)
    requires
        snapshot_wf(data),
        0 <= start <= end <= data.commits@.len(),
        !all_empty(days_of(data.commits@.subrange(start, end), stat)),
        0 <= d < trim_spec(days_of(data.commits@.subrange(start, end), stat)).len(),
    ensures
        exists|ci: int|
            0 <= ci < data.commits@.len() && trim_spec(
                days_of(data.commits@.subrange(start, end), stat),
            )[d] == crate::day_range::day_view(#[trigger] data.commits@[ci], stat),
{
    let days = days_of(data.commits@.subrange(start, end), stat);
    crate::day_range::lemma_first_ne(days);
    crate::day_range::lemma_last_ne(days);
    let f = crate::day_range::first_ne(days);
    let i = f + d;
    assert(trim_spec(days)[d] == days[i]);
    assert(days[i] == crate::day_range::day_view(data.commits@.subrange(start, end)[i], stat));
    assert(data.commits@.subrange(start, end)[i] == data.commits@[start + i]);
}

/// Once a group misses its baseline, the day's plot stays failed.
proof fn lemma_apply_groups_none(
    sums: Sums,
    init: Inits,
    gs: Seq<GroupV>,
    n: int,
    m: int,
    commit: Seq<char>,
    prev: Option<Seq<char>>,
    x: u64,
    absolute: bool,
)
    requires
        0 <= n <= m,
        apply_groups(sums, init, gs, n, commit, prev, x, absolute) is None,
    ensures
        apply_groups(sums, init, gs, m, commit, prev, x, absolute) is None,
    decreases m,
{
    if m > n {
        lemma_apply_groups_none(sums, init, gs, n, m - 1, commit, prev, x, absolute);
    }
}

/// Once a day fails the summary, later days stay failed.
proof fn lemma_sum_fold_none(days: Seq<DateDataV>, n: int, m: int, absolute: bool)
    requires
        0 <= n <= m,
        sum_fold(days, n, absolute) is None,
    ensures
        sum_fold(days, m, absolute) is None,
    decreases m,
{
    if m > n {
        lemma_sum_fold_none(days, n, m - 1, absolute);
    }
}

fn clone_opt_string(o: &Option<String>) -> (r: Option<String>)
    ensures
        r is Some <==> o is Some,
        o is Some ==> r->0@ == o->0@,
{
    match o {
        None => None,
        Some(s) => Some(s.clone()),
    }
}

/// Appends one point to a series, computing the percent change from the
/// series' first value and choosing the plotted value per the request flag.
fn push_point(
    series: &mut Vec<GraphData>,
    benchmark: String,
    commit: String,
    prev: Option<String>,
    value: i64,
    absolute: bool,
    x: u64,
    Ghost(days): Ghost<Seq<DateDataV>>,
)
    requires
        amount_in_range(value),
        graph_series_ok(old(series)@, absolute),
        forall|k: int| 0 <= k < old(series)@.len() ==> point_from_day(days, (#[trigger] old(series)@[k])),
        exists|d: int|
            0 <= d < days.len() && commit@ == (#[trigger] days[d]).commit && x == days[d].date
                * 1000,
    ensures
        graph_series_ok(final(series)@, absolute),
        forall|k: int| 0 <= k < final(series)@.len() ==> point_from_day(days, (#[trigger] final(series)@[k])),
        final(series)@.len() == old(series)@.len() + 1,
        points_view(final(series)@) == points_view(old(series)@).push(
            mk_point(
                benchmark@,
                commit@,
                (match prev {
                    None => None,
                    Some(s) => Some(s@),
                }),
                value,
                absolute,
                x,
                (if old(series)@.len() > 0 {
                    Some(old(series)@[0].absolute)
                } else {
                    None
                }),
            ),
        ),
{
    let pct: i64 = if series.len() > 0 {
        percent_change(series[0].absolute, value)
    } else {
        0
    };
    let y = if absolute {
        value
    } else {
        pct
    };
    let p = GraphData { benchmark, commit, prev_commit: prev, absolute: value, percent: pct, y, x };
    proof {
        if old(series)@.len() == 0 {
            if value > 0 {
                vstd::arithmetic::div_mod::lemma_basic_div((value as int) / 2, value as int);
            }
            assert(clamp_i64(pct_spec(value as int, value as int)) == 0);
        }
        assert(point_from_day(days, p));
    }
    series.push(p);
    proof {
        assert(points_view(series@) =~= points_view(old(series)@).push(point_view(p)));
    }
}

/// Appends a point to the series named `label` of the entry under
/// construction, creating the series when new.
fn entry_push(
    sl: &mut Vec<(String, Vec<GraphData>)>,
    label: String,
    benchmark: String,
    commit: String,
    prev: Option<String>,
    value: i64,
    absolute: bool,
    x: u64,
    Ghost(days): Ghost<Seq<DateDataV>>,
)
    requires
        amount_in_range(value),
        forall|j: int|
            0 <= j < old(sl)@.len() ==> series_entry_ok(#[trigger] old(sl)@[j], absolute, days),
        exists|d: int|
            0 <= d < days.len() && commit@ == (#[trigger] days[d]).commit && x == days[d].date
                * 1000,
    ensures
        forall|j: int|
            0 <= j < final(sl)@.len() ==> series_entry_ok(#[trigger] final(sl)@[j], absolute, days),
        series_list_view(final(sl)@) == series_add(
            series_list_view(old(sl)@),
            label@,
            benchmark@,
            commit@,
            (match prev {
                None => None,
                Some(s) => Some(s@),
            }),
            value,
            absolute,
            x,
        ),
{
    let ghost pre_view = series_list_view(old(sl)@);
    match assoc_index(sl, &label) {
        Some(si) => {
            let ghost pre = sl@;
            proof {
                lemma_find_key_at(pre_view, label@, si as int);
            }
            let (lab, mut ser) = sl.remove(si);
            proof {
                assert(graph_series_ok(pre[si as int].1@, absolute));
            }
            push_point(&mut ser, benchmark, commit, prev, value, absolute, x, Ghost(days));
            let ghost mid = sl@;
            sl.insert(si, (lab, ser));
            proof {
                assert forall|j: int| 0 <= j < sl@.len() implies series_entry_ok(
                    #[trigger] sl@[j],
                    absolute,
                    days,
                ) by {
                    if j < si {
                        assert(sl@[j] == pre[j]);
                    } else if j == si {
                    } else {
                        assert(sl@[j] == mid[j - 1]);
                        if j - 1 < si {
                            assert(mid[j - 1] == pre[j - 1]);
                        } else {
                            assert(mid[j - 1] == pre[j]);
                        }
                    }
                }
                assert(forall|j: int| 0 <= j < si ==> #[trigger] sl@[j] == pre[j]);
                assert(forall|j: int| si < j < sl@.len() ==> #[trigger] sl@[j] == pre[j]);
                assert(sl@[si as int].0@ == label@);
                assert(points_view(sl@[si as int].1@) == pre_view[si as int].1.push(
                    mk_point(
                        benchmark@,
                        commit@,
                        (match prev {
                            None => None,
                            Some(s) => Some(s@),
                        }),
                        value,
                        absolute,
                        x,
                        (if pre_view[si as int].1.len() > 0 {
                            Some(pre_view[si as int].1[0].absolute)
                        } else {
                            None
                        }),
                    ),
                )) by {
                    assert(pre_view[si as int].1 == points_view(pre[si as int].1@));
                    assert(pre[si as int].1@.len() > 0 ==> pre_view[si as int].1[0]
                        == point_view(pre[si as int].1@[0]));
                }
                assert(series_list_view(sl@) =~~= series_add(
                    pre_view,
                    label@,
                    benchmark@,
                    commit@,
                    (match prev {
                        None => None,
                        Some(s) => Some(s@),
                    }),
                    value,
                    absolute,
                    x,
                ));
            }
        },
        None => {
            proof {
                lemma_find_key_none(pre_view, label@);
            }
            let mut ser: Vec<GraphData> = Vec::new();
            push_point(&mut ser, benchmark, commit, prev, value, absolute, x, Ghost(days));
            sl.push((label, ser));
            proof {
                assert(points_view(ser@) =~= seq![
                    mk_point(
                        benchmark@,
                        commit@,
                        (match prev {
                            None => None,
                            Some(s) => Some(s@),
                        }),
                        value,
                        absolute,
                        x,
                        None,
                    ),
                ]);
                assert(series_list_view(sl@) =~~= series_add(
                    pre_view,
                    label@,
                    benchmark@,
                    commit@,
                    (match prev {
                        None => None,
                        Some(s) => Some(s@),
                    }),
                    value,
                    absolute,
                    x,
                ));
            }
        },
    }
}

/// One day's worth of a summary group: a scenario shared by several
/// benchmarks and the samples collected for it.
struct SummaryGroup {
    release: bool,
    check: bool,
    kind: RunKind,
    values: Vec<i64>,
}

/// Ghost images of the groups under construction.
spec fn sgroups_view(v: Seq<SummaryGroup>) -> Seq<GroupV> {
    v.map(
        |i: int, g: SummaryGroup| GroupV {
            release: g.release,
            check: g.check,
            kind: g.kind@,
            values: g.values@,
        },
    )
}

spec fn group_wf(g: SummaryGroup) -> bool {
    g.values@.len() > 0 && forall|i: int|
        0 <= i < g.values@.len() ==> amount_in_range(#[trigger] g.values@[i])
}

/// Full per-commit series for every benchmark-tier bucket of the resolved
/// day range, with percent change from each series' start, synthesized
/// summary series per tier, and per-benchmark maxima.  The response is
/// exactly `graph_spec` of the trimmed day range: every sample of every
/// trimmed day, in day order, under its key and run label, carrying the
/// day's commit, its date in milliseconds, and the previous trimmed day's
/// commit, followed by the non-empty summary entries.  Fails with an
/// empty-range error exactly when no day of the range has samples, and with
/// a missing-baseline error exactly when a summary group appears before any
/// baseline full-build group of its tier.
#[verifier::rlimit(100)]
#[verifier::spinoff_prover]
pub fn handle_graph(data: &Snapshot, start: usize, end: usize, stat: &String, absolute: bool) -> (r:
    ServerResult<GraphResponse>)
    requires
        snapshot_wf(*data),
        start <= end <= data.commits@.len(),
    ensures
        ({
            let days = days_of(data.commits@.subrange(start as int, end as int), stat@);
            match r {
                Err(e) => {
                    &&& (e == ServerError::EmptyRange || e == ServerError::MissingBaseline)
                    &&& (e == ServerError::EmptyRange <==> all_empty(days))
                    &&& (e == ServerError::MissingBaseline <==> (!all_empty(days) && graph_spec(
                        trim_spec(days),
                        absolute,
                    ) is None))
                },
                Ok(resp) => {
                    &&& !all_empty(days)
                    &&& graph_spec(trim_spec(days), absolute) == Some(
                        entries_view(resp.benchmarks@),
                    )
                    &&& resp.benchmarks@.len() > 0
                    &&& graph_entries_ok(resp.benchmarks@, absolute, trim_spec(days))
                    &&& maxes_ok(resp.max@, resp.benchmarks@)
                },
            }
        }),
{
    let ghost gdays = days_of(data.commits@.subrange(start as int, end as int), stat@);
    let out = match handle_data(data, start, end, stat) {
        Ok(out) => out,
        Err(_) => {
            return Err(ServerError::EmptyRange);
        },
    };
    let ghost tdays = trim_spec(gdays);
    proof {
        assert(days_view(out@) == tdays);
        assert(forall|d: int| 0 <= d < out@.len() ==> (#[trigger] out@[d])@ == tdays[d]);
    }

    let mut result: Vec<(String, Vec<(String, Vec<GraphData>)>)> = Vec::new();

    // Regular series: one entry per benchmark-tier key, in first-appearance
    // order, each series collecting that key's samples day by day.
    let mut di: usize = 0;
    while di < out.len()
        invariant
            snapshot_wf(*data),
            start <= end <= data.commits@.len(),
            gdays == days_of(data.commits@.subrange(start as int, end as int), stat@),
            !all_empty(gdays),
            tdays == trim_spec(gdays),
            days_view(out@) == tdays,
            forall|d: int| 0 <= d < out@.len() ==> (#[trigger] out@[d])@ == tdays[d],
            forall|d: int| 0 <= d < out@.len() ==> date_data_wf((#[trigger] out@[d])@),
            0 <= di <= out@.len(),
            out@.len() > 0,
            graph_entries_ok(result@, absolute, tdays),
            entries_view(result@) == reg_fold(tdays, di as int, absolute),
            di > 0 ==> result@.len() > 0,
        decreases out@.len() - di,
    {
        let day = &out[di];
        let prev: Option<String> = if di > 0 {
            Some(out[di - 1].commit.clone())
        } else {
            None
        };
        let mut ei: usize = 0;
        while ei < day.data.len()
            invariant
                snapshot_wf(*data),
                start <= end <= data.commits@.len(),
                gdays == days_of(data.commits@.subrange(start as int, end as int), stat@),
                !all_empty(gdays),
                tdays == trim_spec(gdays),
                days_view(out@) == tdays,
                forall|d: int| 0 <= d < out@.len() ==> (#[trigger] out@[d])@ == tdays[d],
                forall|d: int| 0 <= d < out@.len() ==> date_data_wf((#[trigger] out@[d])@),
                0 <= di < out@.len(),
                *day == out@[di as int],
                0 <= ei <= day.data@.len(),
                graph_entries_ok(result@, absolute, tdays),
                entries_view(result@) == reg_add_day(
                    reg_fold(tdays, di as int, absolute),
                    tdays[di as int],
                    ei as int,
                    prev_of(tdays, di as int),
                    absolute,
                ),
                ei > 0 || di > 0 ==> result@.len() > 0,
                (match prev {
                    None => di == 0,
                    Some(p) => di > 0 && p@ == tdays[di as int - 1].commit,
                }),
            decreases day.data@.len() - ei,
        {
            let name = &day.data[ei].0;
            let triples = &day.data[ei].1;
            let ghost tsv = tdays[di as int].data[ei as int].1;
            let ghost commitv = tdays[di as int].commit;
            let ghost prevv = prev_of(tdays, di as int);
            let ghost xv = ((tdays[di as int].date * 1000) as u64);
            proof {
                assert(out@[di as int]@.data[ei as int] == (name@, crate::date_data::triples_view(
                    triples@,
                )));
                assert(tsv == crate::date_data::triples_view(triples@));
                assert(tsv.len() == triples@.len());
                lemma_trim_day_src(*data, start as int, end as int, stat@, di as int);
                let ci = choose|ci: int|
                    0 <= ci < data.commits@.len() && tdays[di as int]
                        == crate::day_range::day_view(#[trigger] data.commits@[ci], stat@);
                lemma_day_entries_nonempty(data.commits@[ci].benchmarks@, stat@);
                assert(tsv.len() > 0);
            }
            let ghost es_step = entries_view(result@);
            let mut created = false;
            let idx = match assoc_index(&result, name) {
                Some(i) => i,
                None => {
                    created = true;
                    result.push((name.clone(), Vec::new()));
                    result.len() - 1
                },
            };
            let ghost es_mid = entries_view(result@);
            proof {
                if created {
                    assert(es_mid =~~= es_step.push((name@, Seq::empty())));
                    assert(forall|j: int|
                        0 <= j < es_step.len() ==> (#[trigger] es_step[j]).0 != name@);
                    assert(idx == es_step.len());
                } else {
                    assert(es_mid == es_step);
                    assert(es_mid[idx as int].0 == name@);
                    assert(forall|j: int| 0 <= j < idx ==> (#[trigger] es_mid[j]).0 != name@);
                }
                assert(idx < es_mid.len());
            }
            let ghost pre = result@;
            let (key, mut sl) = result.remove(idx);
            let ghost sl0 = series_list_view(sl@);
            proof {
                assert(key@ == name@);
                assert(sl0 == es_mid[idx as int].1);
                if created {
                    assert(sl0 =~= Seq::<(Seq<char>, Seq<PointV>)>::empty());
                }
            }
            let mut ti: usize = 0;
            while ti < triples.len()
                invariant
                    snapshot_wf(*data),
                    start <= end <= data.commits@.len(),
                    gdays == days_of(data.commits@.subrange(start as int, end as int), stat@),
                    !all_empty(gdays),
                    tdays == trim_spec(gdays),
                    days_view(out@) == tdays,
                    forall|d: int| 0 <= d < out@.len() ==> (#[trigger] out@[d])@ == tdays[d],
                    forall|d: int| 0 <= d < out@.len() ==> date_data_wf((#[trigger] out@[d])@),
                    0 <= di < out@.len(),
                    *day == out@[di as int],
                    0 <= ei < day.data@.len(),
                    *triples == day.data@[ei as int].1,
                    0 <= ti <= triples@.len(),
                    forall|j: int|
                        0 <= j < sl@.len() ==> series_entry_ok(#[trigger] sl@[j], absolute, tdays),
                    (match prev {
                        None => di == 0,
                        Some(p) => di > 0 && p@ == tdays[di as int - 1].commit,
                    }),
                    tsv == tdays[di as int].data[ei as int].1,
                    tsv == crate::date_data::triples_view(triples@),
                    tsv.len() == triples@.len(),
                    commitv == tdays[di as int].commit,
                    prevv == prev_of(tdays, di as int),
                    xv == ((tdays[di as int].date * 1000) as u64),
                    tdays[di as int].date <= crate::model::MAX_DATE,
                    series_list_view(sl@) == sl_fold(
                        sl0,
                        tsv,
                        ti as int,
                        commitv,
                        prevv,
                        xv,
                        absolute,
                    ),
                decreases triples@.len() - ti,
            {
                let t = &triples[ti];
                proof {
                    assert(out@[di as int]@.data[ei as int].1[ti as int] == (t.0@, t.1@, t.2));
                    assert(date_data_wf(out@[di as int]@));
                    assert(amount_in_range(out@[di as int]@.data[ei as int].1[ti as int].2));
                    assert(tdays[di as int].commit == out@[di as int]@.commit);
                }
                let label = t.0.clone();
                let benchmark = t.1.label();
                let x: u64 = day.date * 1000;
                let prev_arg = clone_opt_string(&prev);
                proof {
                    assert((match prev_arg {
                        None => None,
                        Some(p) => Some(p@),
                    }) =~= prevv);
                    assert(x == xv);
                }
                entry_push(
                    &mut sl,
                    label,
                    benchmark,
                    day.commit.clone(),
                    prev_arg,
                    t.2,
                    absolute,
                    x,
                    Ghost(tdays),
                );
                proof {
                    assert(tsv[ti as int] == (t.0@, t.1@, t.2));
                    assert(series_list_view(sl@) =~~= sl_fold(
                        sl0,
                        tsv,
                        ti + 1,
                        commitv,
                        prevv,
                        xv,
                        absolute,
                    ));
                }
                ti = ti + 1;
            }
            result.insert(idx, (key, sl));
            proof {
                assert forall|a: int, b: int|
                    0 <= a < result@.len() && 0 <= b < result@[a].1@.len() implies series_entry_ok(
                    #[trigger] result@[a].1@[b],
                    absolute,
                    tdays,
                ) by {
                    if a < idx {
                        assert(result@[a] == pre[a]);
                    } else if a == idx {
                    } else {
                        assert(result@[a] == pre[a]);
                    }
                }
                let slv = series_list_view(sl@);
                assert(slv == sl_fold(sl0, tsv, tsv.len() as int, commitv, prevv, xv, absolute));
                assert(forall|a: int| 0 <= a < idx ==> #[trigger] result@[a] == pre[a]);
                assert(forall|a: int| idx < a < result@.len() ==> #[trigger] result@[a] == pre[a]);
                assert(result@[idx as int] == (key, sl));
                assert(entries_view(result@) =~~= es_mid.update(idx as int, (name@, slv)));
                if created {
                    lemma_reg_fold_new(
                        es_step,
                        name@,
                        tsv,
                        tsv.len() as int,
                        commitv,
                        prevv,
                        xv,
                        absolute,
                    );
                    assert(es_mid.update(idx as int, (name@, slv)) =~~= es_step.push(
                        (name@, slv),
                    ));
                    assert(entries_view(result@) =~~= reg_add_triples(
                        es_step,
                        name@,
                        tsv,
                        tsv.len() as int,
                        commitv,
                        prevv,
                        xv,
                        absolute,
                    ));
                } else {
                    lemma_reg_fold_at(
                        es_step,
                        idx as int,
                        name@,
                        tsv,
                        tsv.len() as int,
                        commitv,
                        prevv,
                        xv,
                        absolute,
                    );
                    assert(entries_view(result@) =~~= reg_add_triples(
                        es_step,
                        name@,
                        tsv,
                        tsv.len() as int,
                        commitv,
                        prevv,
                        xv,
                        absolute,
                    ));
                }
                assert(tdays[di as int].data[ei as int].0 == name@);
                assert(entries_view(result@) == reg_add_day(
                    reg_fold(tdays, di as int, absolute),
                    tdays[di as int],
                    ei + 1,
                    prev_of(tdays, di as int),
                    absolute,
                ));
            }
            ei = ei + 1;
        }
        proof {
            assert(tdays[di as int].data.len() == day.data@.len());
            assert(entries_view(result@) == reg_fold(tdays, di + 1, absolute));
            if di == 0 {
                crate::day_range::lemma_first_ne(gdays);
                crate::day_range::lemma_last_ne(gdays);
                assert(tdays[0] == gdays[crate::day_range::first_ne(gdays)]);
                assert(!crate::day_range::day_empty(tdays[0]));
                assert(out@[0]@.data.len() > 0);
                assert(result@.len() > 0);
            }
        }
        di = di + 1;
    }

    // Summary series: per day, group the samples of benchmarks that carry
    // both a baseline full build and a println rebuild, average each group,
    // normalize by the tier's first observed baseline mean, and plot under a
    // per-tier summary entry.
    let mut sum_check: Vec<(String, Vec<GraphData>)> = Vec::new();
    let mut sum_debug: Vec<(String, Vec<GraphData>)> = Vec::new();
    let mut sum_opt: Vec<(String, Vec<GraphData>)> = Vec::new();
    let mut init_check: Option<i64> = None;
    let mut init_debug: Option<i64> = None;
    let mut init_opt: Option<i64> = None;
    let mut di2: usize = 0;
    while di2 < out.len()
        invariant
            snapshot_wf(*data),
            start <= end <= data.commits@.len(),
            gdays == days_of(data.commits@.subrange(start as int, end as int), stat@),
            !all_empty(gdays),
            tdays == trim_spec(gdays),
            days_view(out@) == tdays,
            forall|d: int| 0 <= d < out@.len() ==> (#[trigger] out@[d])@ == tdays[d],
            forall|d: int| 0 <= d < out@.len() ==> date_data_wf((#[trigger] out@[d])@),
            0 <= di2 <= out@.len(),
            forall|j: int|
                0 <= j < sum_check@.len() ==> series_entry_ok(
                    #[trigger] sum_check@[j],
                    absolute,
                    tdays,
                ),
            forall|j: int|
                0 <= j < sum_debug@.len() ==> series_entry_ok(
                    #[trigger] sum_debug@[j],
                    absolute,
                    tdays,
                ),
            forall|j: int|
                0 <= j < sum_opt@.len() ==> series_entry_ok(#[trigger] sum_opt@[j], absolute, tdays),
            init_check is Some ==> amount_in_range(init_check->0),
            init_debug is Some ==> amount_in_range(init_debug->0),
            init_opt is Some ==> amount_in_range(init_opt->0),
            sum_fold(tdays, di2 as int, absolute) == Some(
                (
                    (
                        (
                            series_list_view(sum_check@),
                            series_list_view(sum_debug@),
                            series_list_view(sum_opt@),
                        )
                    ),
                    ((init_check, init_debug, init_opt)),
                ),
            ),
        decreases out@.len() - di2,
    {
        let day = &out[di2];
        let prev: Option<String> = if di2 > 0 {
            Some(out[di2 - 1].commit.clone())
        } else {
            None
        };
        let ghost dd = tdays[di2 as int];
        let ghost sums0 = (
            series_list_view(sum_check@),
            series_list_view(sum_debug@),
            series_list_view(sum_opt@),
        );
        let ghost init0 = (init_check, init_debug, init_opt);
        proof {
            lemma_trim_day_bound(*data, start as int, end as int, stat@, di2 as int);
        }
        let mut groups: Vec<SummaryGroup> = Vec::new();
        let mut ei: usize = 0;
        proof {
            assert(sgroups_view(groups@) =~= grp_add_entries(Seq::empty(), dd, 0));
        }
        while ei < day.data.len()
            invariant
                days_view(out@) == tdays,
                forall|d: int| 0 <= d < out@.len() ==> date_data_wf((#[trigger] out@[d])@),
                0 <= di2 < out@.len(),
                *day == out@[di2 as int],
                dd == tdays[di2 as int],
                0 <= ei <= day.data@.len(),
                forall|g: int| 0 <= g < groups@.len() ==> group_wf(#[trigger] groups@[g]),
                sgroups_view(groups@) == grp_add_entries(Seq::empty(), dd, ei as int),
            decreases day.data@.len() - ei,
        {
            let triples = &day.data[ei].1;
            let ghost tsv2 = dd.data[ei as int].1;
            proof {
                assert(out@[di2 as int]@.data[ei as int] == (
                    day.data@[ei as int].0@,
                    crate::date_data::triples_view(triples@),
                ));
                assert(tsv2 == crate::date_data::triples_view(triples@));
                assert(tsv2.len() == triples@.len());
            }
            let mut has_base = false;
            let mut has_println = false;
            let mut ti: usize = 0;
            while ti < triples.len()
                invariant
                    0 <= ti <= triples@.len(),
                    tsv2 == crate::date_data::triples_view(triples@),
                    tsv2.len() == triples@.len(),
                    has_base == (exists|q: int|
                        0 <= q < ti && (#[trigger] tsv2[q]).1.is_base_compile()),
                    has_println == (exists|q: int|
                        0 <= q < ti && (#[trigger] tsv2[q]).1.is_println_incr()),
                decreases triples@.len() - ti,
            {
                proof {
                    assert(tsv2[ti as int].1 == triples@[ti as int].1@);
                }
                if triples[ti].1.is_base_compile() {
                    has_base = true;
                } else if triples[ti].1.is_println_incr() {
                    has_println = true;
                }
                ti = ti + 1;
            }
            proof {
                assert(has_base == (exists|q: int|
                    0 <= q < tsv2.len() && (#[trigger] tsv2[q]).1.is_base_compile()));
                assert(has_println == (exists|q: int|
                    0 <= q < tsv2.len() && (#[trigger] tsv2[q]).1.is_println_incr()));
                assert((has_base && has_println) == entry_qualifies(tsv2));
            }
            let ghost g_start = sgroups_view(groups@);
            if has_base && has_println {
                let mut ti2: usize = 0;
                while ti2 < triples.len()
                    invariant
                        days_view(out@) == tdays,
                        forall|d: int| 0 <= d < out@.len() ==> date_data_wf((#[trigger] out@[d])@),
                        0 <= di2 < out@.len(),
                        *day == out@[di2 as int],
                        dd == tdays[di2 as int],
                        0 <= ei < day.data@.len(),
                        *triples == day.data@[ei as int].1,
                        tsv2 == dd.data[ei as int].1,
                        tsv2 == crate::date_data::triples_view(triples@),
                        tsv2.len() == triples@.len(),
                        0 <= ti2 <= triples@.len(),
                        forall|g: int| 0 <= g < groups@.len() ==> group_wf(#[trigger] groups@[g]),
                        sgroups_view(groups@) == grp_add_triples(g_start, tsv2, ti2 as int),
                    decreases triples@.len() - ti2,
                {
                    let t = &triples[ti2];
                    proof {
                        assert(tsv2[ti2 as int] == (t.0@, t.1@, t.2));
                    }
                    let skip = t.1.is_patch() && !t.1.is_println_incr();
                    if !skip {
                        proof {
                            assert(date_data_wf(out@[di2 as int]@));
                            assert(amount_in_range(
                                out@[di2 as int]@.data[ei as int].1[ti2 as int].2,
                            ));
                        }
                        let ghost gv = sgroups_view(groups@);
                        let mut gi: usize = 0;
                        let mut found: Option<usize> = None;
                        while gi < groups.len()
                            invariant
                                0 <= gi <= groups@.len(),
                                gv == sgroups_view(groups@),
                                gv.len() == groups@.len(),
                                *t == triples@[ti2 as int],
                                tsv2 == crate::date_data::triples_view(triples@),
                                0 <= ti2 < triples@.len(),
                                tsv2[ti2 as int] == (t.0@, t.1@, t.2),
                                forall|g: int|
                                    0 <= g < groups@.len() ==> group_wf(#[trigger] groups@[g]),
                                match found {
                                    None => forall|q: int|
                                        0 <= q < gi ==> !((#[trigger] gv[q]).release == t.1@.release
                                            && gv[q].check == t.1@.check && gv[q].kind
                                            == t.1@.kind),
                                    Some(f) => f < gi && gv[f as int].release == t.1@.release
                                        && gv[f as int].check == t.1@.check && gv[f as int].kind
                                        == t.1@.kind && (forall|q: int|
                                        0 <= q < f ==> !((#[trigger] gv[q]).release == t.1@.release
                                            && gv[q].check == t.1@.check && gv[q].kind
                                            == t.1@.kind)),
                                },
                            decreases groups@.len() - gi,
                        {
                            if matches!(found, None) && groups[gi].release == t.1.release
                                && groups[gi].check == t.1.check && crate::model::kind_equal(
                                &groups[gi].kind,
                                &t.1.kind,
                            ) {
                                found = Some(gi);
                            }
                            gi = gi + 1;
                        }
                        match found {
                            Some(f) => {
                                proof {
                                    lemma_find_group_at(
                                        gv,
                                        t.1@.release,
                                        t.1@.check,
                                        t.1@.kind,
                                        f as int,
                                    );
                                }
                                let ghost gpre = groups@;
                                let mut g = groups.remove(f);
                                g.values.push(t.2);
                                groups.insert(f, g);
                                proof {
                                    assert forall|q: int|
                                        0 <= q < groups@.len() implies group_wf(
                                        #[trigger] groups@[q],
                                    ) by {
                                        if q < f {
                                            assert(groups@[q] == gpre[q]);
                                        } else if q > f {
                                            assert(groups@[q] == gpre[q]);
                                        }
                                    }
                                    assert(forall|q: int|
                                        0 <= q < f ==> #[trigger] groups@[q] == gpre[q]);
                                    assert(forall|q: int|
                                        f < q < groups@.len() ==> #[trigger] groups@[q] == gpre[q]);
                                    assert(sgroups_view(groups@) =~~= groups_add(
                                        gv,
                                        t.1@.release,
                                        t.1@.check,
                                        t.1@.kind,
                                        t.2,
                                    ));
                                    assert(sgroups_view(groups@) =~~= grp_add_triples(
                                        g_start,
                                        tsv2,
                                        ti2 + 1,
                                    ));
                                }
                            },
                            None => {
                                proof {
                                    lemma_find_group_none(gv, t.1@.release, t.1@.check, t.1@.kind);
                                }
                                let kind_copy = match &t.1.kind {
                                    RunKind::Clean => RunKind::Clean,
                                    RunKind::Nll => RunKind::Nll,
                                    RunKind::BaseIncr => RunKind::BaseIncr,
                                    RunKind::CleanIncr => RunKind::CleanIncr,
                                    RunKind::PatchedIncr(p) => RunKind::PatchedIncr(p.clone()),
                                };
                                proof {
                                    assert(kind_copy@ == t.1@.kind);
                                }
                                let mut values: Vec<i64> = Vec::new();
                                values.push(t.2);
                                groups.push(
                                    SummaryGroup {
                                        release: t.1.release,
                                        check: t.1.check,
                                        kind: kind_copy,
                                        values,
                                    },
                                );
                                proof {
                                    assert(sgroups_view(groups@) =~~= groups_add(
                                        gv,
                                        t.1@.release,
                                        t.1@.check,
                                        t.1@.kind,
                                        t.2,
                                    ));
                                    assert(sgroups_view(groups@) =~~= grp_add_triples(
                                        g_start,
                                        tsv2,
                                        ti2 + 1,
                                    ));
                                }
                            },
                        }
                    } else {
                        proof {
                            assert(sgroups_view(groups@) =~~= grp_add_triples(
                                g_start,
                                tsv2,
                                ti2 + 1,
                            ));
                        }
                    }
                    ti2 = ti2 + 1;
                }
            }
            proof {
                assert(sgroups_view(groups@) =~~= grp_add_entries(Seq::empty(), dd, ei + 1));
            }
            ei = ei + 1;
        }
        proof {
            assert(dd.data.len() == day.data@.len());
            assert(sgroups_view(groups@) == day_groups(dd));
        }
        let ghost gview = sgroups_view(groups@);

        // Capture each tier's first observed baseline mean.
        let mut gi2: usize = 0;
        while gi2 < groups.len()
            invariant
                0 <= gi2 <= groups@.len(),
                gview == sgroups_view(groups@),
                gview.len() == groups@.len(),
                forall|g: int| 0 <= g < groups@.len() ==> group_wf(#[trigger] groups@[g]),
                init_check is Some ==> amount_in_range(init_check->0),
                init_debug is Some ==> amount_in_range(init_debug->0),
                init_opt is Some ==> amount_in_range(init_opt->0),
                (init_check, init_debug, init_opt) == capture_groups(init0, gview, gi2 as int),
            decreases groups@.len() - gi2,
        {
            let g = &groups[gi2];
            proof {
                assert(gview[gi2 as int] == (GroupV {
                    release: g.release,
                    check: g.check,
                    kind: g.kind@,
                    values: g.values@,
                }));
            }
            if matches!(g.kind, RunKind::Clean) {
                let m = match mean(&g.values) {
                    Some(m) => m,
                    None => 0,
                };
                proof {
                    assert(m == grp_mean(g.values@));
                }
                if g.release {
                    if matches!(init_opt, None) {
                        init_opt = Some(m);
                    }
                } else if g.check {
                    if matches!(init_check, None) {
                        init_check = Some(m);
                    }
                } else {
                    if matches!(init_debug, None) {
                        init_debug = Some(m);
                    }
                }
            }
            gi2 = gi2 + 1;
        }
        let ghost init2 = (init_check, init_debug, init_opt);
        proof {
            assert(init2 == capture_groups(init0, gview, gview.len() as int));
        }

        // Normalize each group's mean by its tier's baseline and plot it.
        let mut gi3: usize = 0;
        while gi3 < groups.len()
            invariant
                snapshot_wf(*data),
                start <= end <= data.commits@.len(),
                gdays == days_of(data.commits@.subrange(start as int, end as int), stat@),
                !all_empty(gdays),
                tdays == trim_spec(gdays),
                days_view(out@) == tdays,
                forall|d: int| 0 <= d < out@.len() ==> (#[trigger] out@[d])@ == tdays[d],
                forall|d: int| 0 <= d < out@.len() ==> date_data_wf((#[trigger] out@[d])@),
                0 <= di2 < out@.len(),
                *day == out@[di2 as int],
                dd == tdays[di2 as int],
                dd.date <= crate::model::MAX_DATE,
                0 <= gi3 <= groups@.len(),
                gview == sgroups_view(groups@),
                gview.len() == groups@.len(),
                gview == day_groups(dd),
                forall|g: int| 0 <= g < groups@.len() ==> group_wf(#[trigger] groups@[g]),
                forall|j: int|
                    0 <= j < sum_check@.len() ==> series_entry_ok(
                        #[trigger] sum_check@[j],
                        absolute,
                        tdays,
                    ),
                forall|j: int|
                    0 <= j < sum_debug@.len() ==> series_entry_ok(
                        #[trigger] sum_debug@[j],
                        absolute,
                        tdays,
                    ),
                forall|j: int|
                    0 <= j < sum_opt@.len() ==> series_entry_ok(
                        #[trigger] sum_opt@[j],
                        absolute,
                        tdays,
                    ),
                init_check is Some ==> amount_in_range(init_check->0),
                init_debug is Some ==> amount_in_range(init_debug->0),
                init_opt is Some ==> amount_in_range(init_opt->0),
                (init_check, init_debug, init_opt) == init2,
                sum_fold(tdays, di2 as int, absolute) == Some((sums0, init0)),
                init2 == capture_groups(init0, gview, gview.len() as int),
                (match prev {
                    None => di2 == 0,
                    Some(p) => di2 > 0 && p@ == tdays[di2 as int - 1].commit,
                }),
                apply_groups(
                    sums0,
                    init2,
                    gview,
                    gi3 as int,
                    dd.commit,
                    prev_of(tdays, di2 as int),
                    ((dd.date * 1000) as u64),
                    absolute,
                ) == Some(
                    (
                        (
                            series_list_view(sum_check@),
                            series_list_view(sum_debug@),
                            series_list_view(sum_opt@),
                        )
                    ),
                ),
            decreases groups@.len() - gi3,
        {
            let g = &groups[gi3];
            proof {
                assert(gview[gi3 as int] == (GroupV {
                    release: g.release,
                    check: g.check,
                    kind: g.kind@,
                    values: g.values@,
                }));
            }
            let m = match mean(&g.values) {
                Some(m) => m,
                None => 0,
            };
            proof {
                assert(m == grp_mean(g.values@));
            }
            let base = if g.release {
                &init_opt
            } else if g.check {
                &init_check
            } else {
                &init_debug
            };
            let base_v = match base {
                Some(b) => *b,
                None => {
                    proof {
                        assert(apply_group(
                            (
                                series_list_view(sum_check@),
                                series_list_view(sum_debug@),
                                series_list_view(sum_opt@),
                            ),
                            init2,
                            gview[gi3 as int],
                            dd.commit,
                            prev_of(tdays, di2 as int),
                            ((dd.date * 1000) as u64),
                            absolute,
                        ) is None);
                        assert(apply_groups(
                            sums0,
                            init2,
                            gview,
                            gi3 + 1,
                            dd.commit,
                            prev_of(tdays, di2 as int),
                            ((dd.date * 1000) as u64),
                            absolute,
                        ) is None);
                        lemma_apply_groups_none(
                            sums0,
                            init2,
                            gview,
                            gi3 + 1,
                            gview.len() as int,
                            dd.commit,
                            prev_of(tdays, di2 as int),
                            ((dd.date * 1000) as u64),
                            absolute,
                        );
                        assert(sum_fold(tdays, di2 + 1, absolute) is None);
                        lemma_sum_fold_none(tdays, di2 + 1, tdays.len() as int, absolute);
                        assert(graph_spec(tdays, absolute) is None);
                    }
                    return Err(ServerError::MissingBaseline);
                },
            };
            let value = ratio_amount(m, base_v);
            proof {
                assert(value == (clamp_amount(
                    ratio_spec(grp_mean(g.values@) as int, base_v as int),
                ) as i64));
                assert(tdays[di2 as int].commit == out@[di2 as int]@.commit);
            }
            let label = run_kind_label(&g.kind);
            let x: u64 = day.date * 1000;
            let prev_arg = clone_opt_string(&prev);
            proof {
                assert((match prev_arg {
                    None => None,
                    Some(p) => Some(p@),
                }) =~= prev_of(tdays, di2 as int));
                assert(x == ((dd.date * 1000) as u64));
                assert(kind_label(g.kind@) == kind_label(gview[gi3 as int].kind));
            }
            if g.release {
                entry_push(
                    &mut sum_opt,
                    label.0,
                    label.1,
                    day.commit.clone(),
                    prev_arg,
                    value,
                    absolute,
                    x,
                    Ghost(tdays),
                );
            } else if g.check {
                entry_push(
                    &mut sum_check,
                    label.0,
                    label.1,
                    day.commit.clone(),
                    prev_arg,
                    value,
                    absolute,
                    x,
                    Ghost(tdays),
                );
            } else {
                entry_push(
                    &mut sum_debug,
                    label.0,
                    label.1,
                    day.commit.clone(),
                    prev_arg,
                    value,
                    absolute,
                    x,
                    Ghost(tdays),
                );
            }
            proof {
                assert(apply_groups(
                    sums0,
                    init2,
                    gview,
                    gi3 + 1,
                    dd.commit,
                    prev_of(tdays, di2 as int),
                    ((dd.date * 1000) as u64),
                    absolute,
                ) == Some(
                    (
                        (
                            series_list_view(sum_check@),
                            series_list_view(sum_debug@),
                            series_list_view(sum_opt@),
                        )
                    ),
                ));
            }
            gi3 = gi3 + 1;
        }
        proof {
            assert(sum_fold(tdays, di2 + 1, absolute) == Some(
                (
                    (
                        (
                            series_list_view(sum_check@),
                            series_list_view(sum_debug@),
                            series_list_view(sum_opt@),
                        )
                    ),
                    init2,
                ),
            ));
        }
        di2 = di2 + 1;
    }
    proof {
        crate::day_range::lemma_first_ne(gdays);
        crate::day_range::lemma_last_ne(gdays);
        assert(result@.len() > 0);
    }
    let ghost reg_final = entries_view(result@);
    let ghost scv = series_list_view(sum_check@);
    let ghost sdv = series_list_view(sum_debug@);
    let ghost sov = series_list_view(sum_opt@);
    proof {
        assert(reg_final == reg_fold(tdays, tdays.len() as int, absolute));
        assert(sum_fold(tdays, tdays.len() as int, absolute) == Some((((scv, sdv, sov)), (
        init_check,
        init_debug,
        init_opt,
        ))));
    }
    if sum_check.len() > 0 {
        result.push((String::from_str("Summary-check"), sum_check));
        proof {
            assert(graph_entries_ok(result@, absolute, tdays));
        }
    }
    proof {
        assert(entries_view(result@) =~~= reg_final + (if scv.len() > 0 {
            seq![("Summary-check"@, scv)]
        } else {
            Seq::<(Seq<char>, Seq<(Seq<char>, Seq<PointV>)>)>::empty()
        }));
    }
    let ghost with_check = entries_view(result@);
    if sum_debug.len() > 0 {
        result.push((String::from_str("Summary-debug"), sum_debug));
        proof {
            assert(graph_entries_ok(result@, absolute, tdays));
        }
    }
    proof {
        assert(entries_view(result@) =~~= with_check + (if sdv.len() > 0 {
            seq![("Summary-debug"@, sdv)]
        } else {
            Seq::<(Seq<char>, Seq<(Seq<char>, Seq<PointV>)>)>::empty()
        }));
    }
    let ghost with_debug = entries_view(result@);
    if sum_opt.len() > 0 {
        result.push((String::from_str("Summary-opt"), sum_opt));
        proof {
            assert(graph_entries_ok(result@, absolute, tdays));
        }
    }
    proof {
        assert(entries_view(result@) =~~= with_debug + (if sov.len() > 0 {
            seq![("Summary-opt"@, sov)]
        } else {
            Seq::<(Seq<char>, Seq<(Seq<char>, Seq<PointV>)>)>::empty()
        }));
        assert(graph_spec(tdays, absolute) == Some(entries_view(result@)));
    }

    let maxes = compute_maxes(&result);
    Ok(GraphResponse { benchmarks: result, max: maxes })
}

/// The scenario's display label, twice: once to key the series, once for the
/// point's own label field.
fn run_kind_label(k: &RunKind) -> (r: (String, String))
    ensures
        r.0@ == kind_label(k@),
        r.1@ == kind_label(k@),
{
    let a = kind_label_exec(k);
    let b = kind_label_exec(k);
    (a, b)
}

fn kind_label_exec(k: &RunKind) -> (r: String)
    ensures
        r@ == kind_label(k@),
{
    match k {
        RunKind::Clean => String::from_str("clean"),
        RunKind::Nll => String::from_str("nll"),
        RunKind::BaseIncr => String::from_str("baseline incremental"),
        RunKind::CleanIncr => String::from_str("clean incremental"),
        RunKind::PatchedIncr(p) => {
            let mut s = String::from_str("patched incremental: ");
            s.append(p.as_str());
            s
        },
    }
}

proof fn lemma_trim_day_bound(data: Snapshot, start: int, end: int, stat: Seq<char>, d: int)
    requires
        snapshot_wf(data),
        0 <= start <= end <= data.commits@.len(),
        !all_empty(days_of(data.commits@.subrange(start, end), stat)),
        0 <= d < trim_spec(days_of(data.commits@.subrange(start, end), stat)).len(),
    ensures
        trim_spec(days_of(data.commits@.subrange(start, end), stat))[d].date
            <= crate::model::MAX_DATE,
{
    let days = days_of(data.commits@.subrange(start, end), stat);
    crate::day_range::lemma_first_ne(days);
    crate::day_range::lemma_last_ne(days);
    let f = crate::day_range::first_ne(days);
    let i = f + d;
    assert(trim_spec(days)[d] == days[i]);
    assert(days[i] == crate::day_range::day_view(data.commits@.subrange(start, end)[i], stat));
    assert(data.commits@.subrange(start, end)[i] == data.commits@[start + i]);
}

/// The tier suffix removed from a benchmark-tier key.
fn strip_name(n: &String) -> (r: String)
    ensures
        r@ == strip_tier(n@),
{
    let len = n.as_str().unicode_len();
    if len >= 6 {
        let tail = n.as_str().substring_char(len - 6, len);
        if str_eq(tail, "-check") || str_eq(tail, "-debug") {
            proof {
                assert(n@.take(n@.len() - 6) =~= n@.subrange(0, n@.len() - 6));
            }
            return String::from_str(n.as_str().substring_char(0, len - 6));
        }
    }
    if len >= 4 {
        let tail = n.as_str().substring_char(len - 4, len);
        if str_eq(tail, "-opt") {
            proof {
                assert(n@.take(n@.len() - 4) =~= n@.subrange(0, n@.len() - 4));
            }
            return String::from_str(n.as_str().substring_char(0, len - 4));
        }
    }
    n.clone()
}

/// The maximum plotted value per un-suffixed benchmark name.
fn compute_maxes(entries: &Vec<(String, Vec<(String, Vec<GraphData>)>)>) -> (r: Vec<(String, i64)>)
    ensures
        maxes_ok(r@, entries@),
{
    let mut maxes: Vec<(String, i64)> = Vec::new();
    let mut i: usize = 0;
    proof {
        assert(entries@.subrange(0, 0) =~= Seq::<
            (String, Vec<(String, Vec<GraphData>)>),
        >::empty());
    }
    while i < entries.len()
        invariant
            0 <= i <= entries@.len(),
            forall|a: int, b: int|
                0 <= a < b < maxes@.len() ==> (#[trigger] maxes@[a]).0@ != (
                #[trigger] maxes@[b]).0@,
            forall|q: int|
                0 <= q < maxes@.len() ==> (#[trigger] maxes@[q]).1 == bench_max(
                    entries@.subrange(0, i as int),
                    maxes@[q].0@,
                ),
            forall|q: int|
                0 <= q < i ==> max_listed(maxes@, strip_tier((#[trigger] entries@[q]).0@)),
            forall|q: int| 0 <= q < maxes@.len() ==> 0 <= (#[trigger] maxes@[q]).1,
        decreases entries@.len() - i,
    {
        let ghost prefix = entries@.subrange(0, i as int);
        let ghost now = entries@.subrange(0, i + 1);
        proof {
            assert(now.drop_last() =~= prefix);
            assert(now.last() == entries@[i as int]);
        }
        let m = entry_max_exec(&entries[i].1);
        let name = strip_name(&entries[i].0);
        match assoc_index(&maxes, &name) {
            Some(mi) => {
                let ghost mpre = maxes@;
                let (k, old_m) = maxes.remove(mi);
                let new_m = if m > old_m {
                    m
                } else {
                    old_m
                };
                maxes.insert(mi, (k, new_m));
                proof {
                    assert(maxes@.len() == mpre.len());
                    assert(forall|q: int| 0 <= q < mi ==> #[trigger] maxes@[q] == mpre[q]);
                    assert(forall|q: int|
                        mi < q < maxes@.len() ==> #[trigger] maxes@[q] == mpre[q]);
                    assert(maxes@[mi as int].0@ == mpre[mi as int].0@);
                    assert forall|q: int| 0 <= q < maxes@.len() implies (#[trigger] maxes@[q]).1
                        == bench_max(now, maxes@[q].0@) by {
                        if q == mi {
                            assert(strip_tier(now.last().0@) == maxes@[q].0@);
                        } else {
                            assert(maxes@[q] == mpre[q]);
                            assert(strip_tier(now.last().0@) != maxes@[q].0@) by {
                                assert(mpre[mi as int].0@ == strip_tier(entries@[i as int].0@));
                            }
                        }
                    }
                    assert forall|q: int| 0 <= q < i + 1 implies max_listed(
                        maxes@,
                        strip_tier((#[trigger] entries@[q]).0@),
                    ) by {
                        if q < i {
                            let w = choose|w: int|
                                0 <= w < mpre.len() && (#[trigger] mpre[w]).0@ == strip_tier(
                                    entries@[q].0@,
                                );
                            assert(maxes@[w].0@ == mpre[w].0@);
                        } else {
                            assert(maxes@[mi as int].0@ == strip_tier(entries@[i as int].0@));
                        }
                    }
                }
            },
            None => {
                let ghost mpre = maxes@;
                let start_m = if m > 0 {
                    m
                } else {
                    0
                };
                maxes.push((name, start_m));
                proof {
                    lemma_bench_max_absent(prefix, maxes@.last().0@);
                    assert forall|q: int| 0 <= q < maxes@.len() implies (#[trigger] maxes@[q]).1
                        == bench_max(now, maxes@[q].0@) by {
                        if q < maxes@.len() - 1 {
                            assert(maxes@[q] == mpre[q]);
                            assert(strip_tier(now.last().0@) != maxes@[q].0@);
                        } else {
                            assert(strip_tier(now.last().0@) == maxes@[q].0@);
                        }
                    }
                    assert forall|q: int| 0 <= q < i + 1 implies max_listed(
                        maxes@,
                        strip_tier((#[trigger] entries@[q]).0@),
                    ) by {
                        if q < i {
                            assert(max_listed(mpre, strip_tier(entries@[q].0@)));
                            let w = choose|w: int|
                                0 <= w < mpre.len() && (#[trigger] mpre[w]).0@ == strip_tier(
                                    entries@[q].0@,
                                );
                            assert(maxes@[w] == mpre[w]);
                            assert(maxes@[w].0@ == strip_tier(entries@[q].0@));
                        } else {
                            assert(maxes@[maxes@.len() - 1].0@ == strip_tier(
                                entries@[i as int].0@,
                            ));
                        }
                    }
                }
            },
        }
        i = i + 1;
    }
    proof {
        assert(entries@.subrange(0, entries@.len() as int) =~= entries@);
    }
    maxes
}

/// The maximum plotted value over one entry's series, floored at zero.
fn entry_max_exec(ss: &Vec<(String, Vec<GraphData>)>) -> (r: i64)
    ensures
        r == entry_max(ss@),
        r >= 0,
{
    let mut m: i64 = 0;
    let mut i: usize = 0;
    proof {
        assert(ss@.subrange(0, 0) =~= Seq::<(String, Vec<GraphData>)>::empty());
    }
    while i < ss.len()
        invariant
            0 <= i <= ss@.len(),
            m == entry_max(ss@.subrange(0, i as int)),
            m >= 0,
        decreases ss@.len() - i,
    {
        proof {
            assert(ss@.subrange(0, i + 1).drop_last() =~= ss@.subrange(0, i as int));
            assert(ss@.subrange(0, i + 1).last() == ss@[i as int]);
        }
        let sm = series_max_exec(&ss[i].1);
        if sm > m {
            m = sm;
        }
        i = i + 1;
    }
    proof {
        assert(ss@.subrange(0, ss@.len() as int) =~= ss@);
    }
    m
}

/// The maximum plotted value of one series, floored at zero.
fn series_max_exec(s: &Vec<GraphData>) -> (r: i64)
    ensures
        r == series_max(s@),
        r >= 0,
{
    let mut m: i64 = 0;
    let mut i: usize = 0;
    proof {
        assert(s@.subrange(0, 0) =~= Seq::<GraphData>::empty());
    }
    while i < s.len()
        invariant
            0 <= i <= s@.len(),
            m == series_max(s@.subrange(0, i as int)),
            m >= 0,
        decreases s@.len() - i,
    {
        proof {
            assert(s@.subrange(0, i + 1).drop_last() =~= s@.subrange(0, i as int));
            assert(s@.subrange(0, i + 1).last() == s@[i as int]);
        }
        if s[i].y > m {
            m = s[i].y;
        }
        i = i + 1;
    }
    proof {
        assert(s@.subrange(0, s@.len() as int) =~= s@);
    }
    m
}

} // verus!
