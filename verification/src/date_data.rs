//! Per-day summaries: one commit's runs for one metric, grouped into
//! benchmark-tier buckets.

use vstd::prelude::*;

verus! {

use vstd::string::{StringExecFns, StrSliceExecFns};
use crate::model::{
    Benchmark, CommitData, Run, RunV, Tier, benchmark_wf, commit_data_wf, run_wf, runs_view,
    stat_in, str_eq,
};
use crate::fixed::amount_in_range;

/// One plotted sample: the run's display label, the run itself, and the
/// metric's value in micro-units.
pub type TripleV = (Seq<char>, RunV, i64);

/// Data associated with a specific date: one commit's samples of one metric,
/// keyed by benchmark name suffixed with its tier.
pub struct DateData {
    /// Seconds since the epoch.
    pub date: u64,
    /// Full hash of the commit the samples come from.
    pub commit: String,
    /// Benchmark-tier key to the tier's samples, in benchmark order.
    pub data: Vec<(String, Vec<(String, Run, i64)>)>,
}

/// Ghost image of `DateData`.
pub struct DateDataV {
    pub date: u64,
    pub commit: Seq<char>,
    pub data: Seq<(Seq<char>, Seq<TripleV>)>,
}

pub open spec fn triples_view(ts: Seq<(String, Run, i64)>) -> Seq<TripleV> {
    ts.map(|i: int, t: (String, Run, i64)| (t.0@, t.1@, t.2))
}

impl View for DateData {
    type V = DateDataV;

    open spec fn view(&self) -> DateDataV {
        DateDataV {
            date: self.date,
            commit: self.commit@,
            data: self.data@.map(
                |i: int, e: (String, Vec<(String, Run, i64)>)| (e.0@, triples_view(e.1@)),
            ),
        }
    }
}

/// Quotient of `v / 1000`, truncated toward zero as machine division does.
pub open spec fn div_trunc_1000(v: int) -> int {
    if v >= 0 {
        v / 1000
    } else {
        -((-v) / 1000)
    }
}

/// The value a sample contributes: `cpu-clock` is recorded in milliseconds
/// and is converted to seconds before any aggregation.
pub open spec fn conv_value(stat: Seq<char>, v: i64) -> i64 {
    if stat == "cpu-clock"@ {
        div_trunc_1000(v as int) as i64
    } else {
        v
    }
}

/// The samples one tier of a benchmark's runs contributes for `stat`, in run
/// order: runs of that tier on which the metric was recorded.
pub open spec fn tier_triples(runs: Seq<RunV>, stat: Seq<char>, t: Tier) -> Seq<TripleV>
    decreases runs.len(),
{
    if runs.len() == 0 {
        Seq::empty()
    } else {
        let rest = tier_triples(runs.drop_last(), stat, t);
        let r = runs.last();
        if r.tier() == t && stat_in(r.stats, stat) is Some {
            rest.push((r.label(), r, conv_value(stat, stat_in(r.stats, stat)->0)))
        } else {
            rest
        }
    }
}

/// The entries one benchmark contributes: its non-empty tiers, keyed by name
/// plus `-opt` / `-check` / `-debug`.
pub open spec fn bench_entries(b: Benchmark, stat: Seq<char>) -> Seq<(Seq<char>, Seq<TripleV>)> {
    let rv = runs_view(b.runs@);
    let opt = tier_triples(rv, stat, Tier::Opt);
    let check = tier_triples(rv, stat, Tier::Check);
    let debug = tier_triples(rv, stat, Tier::Debug);
    (if opt.len() > 0 {
        seq![(b.name@ + "-opt"@, opt)]
    } else {
        Seq::empty()
    }) + (if check.len() > 0 {
        seq![(b.name@ + "-check"@, check)]
    } else {
        Seq::empty()
    }) + (if debug.len() > 0 {
        seq![(b.name@ + "-debug"@, debug)]
    } else {
        Seq::empty()
    })
}

/// The entries a whole sweep contributes, in benchmark order; recorded
/// failures contribute nothing.
pub open spec fn day_entries(benches: Seq<(String, Option<Benchmark>)>, stat: Seq<char>) -> Seq<
    (Seq<char>, Seq<TripleV>),
>
    decreases benches.len(),
{
    if benches.len() == 0 {
        Seq::empty()
    } else {
        day_entries(benches.drop_last(), stat) + (match benches.last().1 {
            Some(b) => bench_entries(b, stat),
            None => Seq::empty(),
        })
    }
}

/// Every sample of the day is a measurement in range.
pub open spec fn date_data_wf(d: DateDataV) -> bool {
    forall|i: int, j: int|
        0 <= i < d.data.len() && 0 <= j < d.data[i].1.len() ==> amount_in_range(
            (#[trigger] d.data[i].1[j]).2,
        )
}

fn convert_stat(is_cpu_clock: bool, v: i64, Ghost(stat): Ghost<Seq<char>>) -> (r: i64)
    requires
        amount_in_range(v),
        is_cpu_clock == (stat == "cpu-clock"@),
    ensures
        r == conv_value(stat, v),
        amount_in_range(r),
{
    if is_cpu_clock {
        if v >= 0 {
            v / 1000
        } else {
            -((-v) / 1000)
        }
    } else {
        v
    }
}

impl DateData {
    /// Builds the day's samples of `stat` from one commit's sweep.
    pub fn for_day(commit: &CommitData, stat: &String) -> (r: DateData)
        requires
            commit_data_wf(*commit),
        ensures
            r@.date == commit.commit.date,
            r@.commit == commit.commit.sha@,
            r@.data == day_entries(commit.benchmarks@, stat@),
            date_data_wf(r@),
    {
        let is_cpu_clock = str_eq(stat.as_str(), "cpu-clock");
        let mut data: Vec<(String, Vec<(String, Run, i64)>)> = Vec::new();
        let mut i: usize = 0;
        proof {
            assert(data@.map(
                |k: int, e: (String, Vec<(String, Run, i64)>)| (e.0@, triples_view(e.1@)),
            ) =~= day_entries(commit.benchmarks@.subrange(0, 0), stat@));
        }
        while i < commit.benchmarks.len()
            invariant
                0 <= i <= commit.benchmarks@.len(),
                commit_data_wf(*commit),
                is_cpu_clock == (stat@ == "cpu-clock"@),
                data@.map(
                    |k: int, e: (String, Vec<(String, Run, i64)>)| (e.0@, triples_view(e.1@)),
                ) == day_entries(commit.benchmarks@.subrange(0, i as int), stat@),
                forall|a: int, b: int|
                    0 <= a < data@.len() && 0 <= b < data@[a].1@.len() ==> amount_in_range(
                        (#[trigger] data@[a].1@[b]).2,
                    ),
            decreases commit.benchmarks@.len() - i,
        {
            let ghost pre = commit.benchmarks@.subrange(0, i as int);
            let ghost now = commit.benchmarks@.subrange(0, i + 1);
            proof {
                assert(now.drop_last() =~= pre);
            }
            if let Some(b) = &commit.benchmarks[i].1 {
                let (opt, check, debug) = Self::tier_split(b, stat, is_cpu_clock);
                if opt.len() > 0 {
                    let key = b.name.clone().concat("-opt");
                    data.push((key, opt));
                }
                if check.len() > 0 {
                    let key = b.name.clone().concat("-check");
                    data.push((key, check));
                }
                if debug.len() > 0 {
                    let key = b.name.clone().concat("-debug");
                    data.push((key, debug));
                }
                proof {
                    assert(data@.map(
                        |k: int, e: (String, Vec<(String, Run, i64)>)| (e.0@, triples_view(e.1@)),
                    ) =~= day_entries(now, stat@));
                }
            } else {
                proof {
                    assert(data@.map(
                        |k: int, e: (String, Vec<(String, Run, i64)>)| (e.0@, triples_view(e.1@)),
                    ) =~= day_entries(now, stat@));
                }
            }
            i = i + 1;
        }
        proof {
            assert(commit.benchmarks@.subrange(0, commit.benchmarks@.len() as int)
                =~= commit.benchmarks@);
        }
        let r = DateData {
            date: commit.commit.date,
            commit: commit.commit.sha.clone(),
            data,
        };
        r
    }

    /// Splits one benchmark's runs into the three tier sample lists.
    fn tier_split(b: &Benchmark, stat: &String, is_cpu_clock: bool) -> (r: (
        Vec<(String, Run, i64)>,
        Vec<(String, Run, i64)>,
        Vec<(String, Run, i64)>,
    ))
        requires
            benchmark_wf(*b),
            is_cpu_clock == (stat@ == "cpu-clock"@),
        ensures
            triples_view(r.0@) == tier_triples(runs_view(b.runs@), stat@, Tier::Opt),
            triples_view(r.1@) == tier_triples(runs_view(b.runs@), stat@, Tier::Check),
            triples_view(r.2@) == tier_triples(runs_view(b.runs@), stat@, Tier::Debug),
            forall|j: int| 0 <= j < r.0@.len() ==> amount_in_range((#[trigger] r.0@[j]).2),
            forall|j: int| 0 <= j < r.1@.len() ==> amount_in_range((#[trigger] r.1@[j]).2),
            forall|j: int| 0 <= j < r.2@.len() ==> amount_in_range((#[trigger] r.2@[j]).2),
    {
        let ghost rv = runs_view(b.runs@);
        let mut opt: Vec<(String, Run, i64)> = Vec::new();
        let mut check: Vec<(String, Run, i64)> = Vec::new();
        let mut debug: Vec<(String, Run, i64)> = Vec::new();
        let mut j: usize = 0;
        proof {
            assert(rv.subrange(0, 0) =~= Seq::<RunV>::empty());
            assert(triples_view(opt@) =~= tier_triples(rv.subrange(0, 0), stat@, Tier::Opt));
            assert(triples_view(check@) =~= tier_triples(rv.subrange(0, 0), stat@, Tier::Check));
            assert(triples_view(debug@) =~= tier_triples(rv.subrange(0, 0), stat@, Tier::Debug));
        }
        while j < b.runs.len()
            invariant
                0 <= j <= b.runs@.len(),
                benchmark_wf(*b),
                is_cpu_clock == (stat@ == "cpu-clock"@),
                rv == runs_view(b.runs@),
                rv.len() == b.runs@.len(),
                triples_view(opt@) == tier_triples(rv.subrange(0, j as int), stat@, Tier::Opt),
                triples_view(check@) == tier_triples(rv.subrange(0, j as int), stat@, Tier::Check),
                triples_view(debug@) == tier_triples(rv.subrange(0, j as int), stat@, Tier::Debug),
                forall|k: int| 0 <= k < opt@.len() ==> amount_in_range((#[trigger] opt@[k]).2),
                forall|k: int| 0 <= k < check@.len() ==> amount_in_range((#[trigger] check@[k]).2),
                forall|k: int| 0 <= k < debug@.len() ==> amount_in_range((#[trigger] debug@[k]).2),
            decreases b.runs@.len() - j,
        {
            let ghost prefix = rv.subrange(0, j as int);
            let ghost now = rv.subrange(0, j + 1);
            proof {
                assert(now.drop_last() =~= prefix);
                assert(now.last() == rv[j as int]);
                assert(rv[j as int] == b.runs@[j as int]@);
            }
            let run = &b.runs[j];
            if let Some(v0) = run.get_stat(stat) {
                proof {
                    assert(run_wf(b.runs@[j as int]@));
                    lemma_stat_in_range(b.runs@[j as int]@.stats, stat@);
                }
                let v = convert_stat(is_cpu_clock, v0, Ghost(stat@));
                let triple = (run.label(), run.duplicate(), v);
                match run.tier() {
                    Tier::Opt => {
                        opt.push(triple);
                        proof {
                            assert(triples_view(opt@) =~= tier_triples(now, stat@, Tier::Opt));
                        }
                    },
                    Tier::Check => {
                        check.push(triple);
                        proof {
                            assert(triples_view(check@) =~= tier_triples(now, stat@, Tier::Check));
                        }
                    },
                    Tier::Debug => {
                        debug.push(triple);
                        proof {
                            assert(triples_view(debug@) =~= tier_triples(now, stat@, Tier::Debug));
                        }
                    },
                }
            }
            proof {
                assert(triples_view(opt@) =~= tier_triples(now, stat@, Tier::Opt));
                assert(triples_view(check@) =~= tier_triples(now, stat@, Tier::Check));
                assert(triples_view(debug@) =~= tier_triples(now, stat@, Tier::Debug));
            }
            j = j + 1;
        }
        proof {
            assert(rv.subrange(0, rv.len() as int) =~= rv);
        }
        (opt, check, debug)
    }
}

pub proof fn lemma_stat_in_range(stats: Seq<(Seq<char>, i64)>, k: Seq<char>)
    requires
        forall|i: int| 0 <= i < stats.len() ==> amount_in_range((#[trigger] stats[i]).1),
        stat_in(stats, k) is Some,
    ensures
        amount_in_range(stat_in(stats, k)->0),
    decreases stats.len(),
{
    if stats.len() > 0 && stats[0].0 != k {
        lemma_stat_in_range(stats.drop_first(), k);
    }
}

} // verus!
