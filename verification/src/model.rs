//! The in-memory benchmark dataset: commits, runs, benchmarks and the
//! snapshot that holds one full sweep of history.

use vstd::prelude::*;

verus! {

use vstd::string::StringExecFns;
use crate::fixed::amount_in_range;

/// Identity of one commit of the measured tree.
pub struct Commit {
    /// Full commit hash; at least eight characters.
    pub sha: String,
    /// Seconds since the epoch.
    pub date: u64,
    /// First line of the commit message.
    pub summary: String,
}

/// Which build scenario a run measured.
pub enum RunKind {
    /// A full build from scratch.
    Clean,
    /// A full build under the alternate static analysis.
    Nll,
    /// Rebuild with incremental state already present and nothing changed.
    BaseIncr,
    /// First incremental build, from a clean tree.
    CleanIncr,
    /// Rebuild after the named patch was applied; the `println` patch is the
    /// one the summaries track.
    PatchedIncr(String),
}

/// Ghost image of `RunKind`.
pub enum KindV {
    Clean,
    Nll,
    BaseIncr,
    CleanIncr,
    PatchedIncr(Seq<char>),
}

/// One (benchmark x tier x scenario) measurement: a bag of named metrics.
pub struct Run {
    /// Built with optimizations.
    pub release: bool,
    /// Type-check only build; mutually exclusive with `release`.
    pub check: bool,
    pub kind: RunKind,
    /// Metric name to value in micro-units.
    pub stats: Vec<(String, i64)>,
}

/// Ghost image of `Run`.
pub struct RunV {
    pub release: bool,
    pub check: bool,
    pub kind: KindV,
    pub stats: Seq<(Seq<char>, i64)>,
}

impl View for RunKind {
    type V = KindV;

    open spec fn view(&self) -> KindV {
        match self {
            RunKind::Clean => KindV::Clean,
            RunKind::Nll => KindV::Nll,
            RunKind::BaseIncr => KindV::BaseIncr,
            RunKind::CleanIncr => KindV::CleanIncr,
            RunKind::PatchedIncr(p) => KindV::PatchedIncr(p@),
        }
    }
}

impl View for Run {
    type V = RunV;

    open spec fn view(&self) -> RunV {
        RunV {
            release: self.release,
            check: self.check,
            kind: self.kind@,
            stats: self.stats@.map(|i: int, p: (String, i64)| (p.0@, p.1)),
        }
    }
}

/// All runs of one benchmark on one commit.
pub struct Benchmark {
    pub name: String,
    pub runs: Vec<Run>,
}

/// The ghost images of a sequence of runs.
pub open spec fn runs_view(rs: Seq<Run>) -> Seq<RunV> {
    rs.map(|i: int, r: Run| r@)
}

/// One commit's full sweep.  A benchmark that failed to build or run is
/// recorded as `None` and skipped by every aggregation.
pub struct CommitData {
    pub commit: Commit,
    pub benchmarks: Vec<(String, Option<Benchmark>)>,
}

/// The whole dataset at one point in time.
pub struct Snapshot {
    /// Every measured commit, ordered by date ascending; never empty.
    pub commits: Vec<CommitData>,
    /// Named reference builds (numbered releases and "beta").
    pub artifact_data: Vec<(String, CommitData)>,
    /// Known benchmark names, for UI population.
    pub crate_list: Vec<String>,
    /// Known metric names, for UI population.
    pub stats_list: Vec<String>,
    /// Date of the most recent commit, seconds since the epoch.
    pub last_date: u64,
}

/// How an aggregation entry point fails; the dispatcher reports these as
/// internal errors.
#[derive(Clone, Copy, PartialEq, Eq, Structural, Debug)]
pub enum ServerError {
    /// The resolved day range holds no day with any data.
    EmptyRange,
    /// A reference-build name is neither a semantic version nor "beta".
    UnexpectedVersion,
    /// No "beta" reference build is present.
    MissingBetaArtifact,
    /// The newest commit lacks a benchmark the "beta" build has.
    InconsistentMaster,
    /// A summary sample appeared before any baseline full-build sample of its
    /// tier, so there is nothing to normalize against.
    MissingBaseline,
}

/// Either a payload or an aggregation failure.
pub type ServerResult<T> = Result<T, ServerError>;

/// The three build tiers a run falls in.
#[derive(Clone, Copy, PartialEq, Eq, Structural, Debug)]
pub enum Tier {
    Check,
    Debug,
    Opt,
}

/// Tier of a run: optimized, type-check-only, or plain debug build.
pub open spec fn tier_of(release: bool, check: bool) -> Tier {
    if release {
        Tier::Opt
    } else if check {
        Tier::Check
    } else {
        Tier::Debug
    }
}

impl RunV {
    pub open spec fn tier(self) -> Tier {
        tier_of(self.release, self.check)
    }

    pub open spec fn is_clean(self) -> bool {
        self.kind is Clean
    }

    pub open spec fn is_nll(self) -> bool {
        self.kind is Nll
    }

    pub open spec fn is_base_incr(self) -> bool {
        self.kind is BaseIncr
    }

    pub open spec fn is_clean_incr(self) -> bool {
        self.kind is CleanIncr
    }

    pub open spec fn is_println_incr(self) -> bool {
        self.kind is PatchedIncr && self.kind->PatchedIncr_0 == "println"@
    }

    /// A full, non-incremental build from scratch: the baseline the summary
    /// series normalizes against.
    pub open spec fn is_base_compile(self) -> bool {
        self.kind is Clean
    }

    pub open spec fn is_patch(self) -> bool {
        self.kind is PatchedIncr
    }

    /// The display label of this run's scenario.
    pub open spec fn label(self) -> Seq<char> {
        kind_label(self.kind)
    }
}

/// The display label of a scenario.
pub open spec fn kind_label(k: KindV) -> Seq<char> {
    match k {
        KindV::Clean => "clean"@,
        KindV::Nll => "nll"@,
        KindV::BaseIncr => "baseline incremental"@,
        KindV::CleanIncr => "clean incremental"@,
        KindV::PatchedIncr(p) => "patched incremental: "@ + p,
    }
}

impl Run {
    pub fn tier(&self) -> (t: Tier)
        ensures
            t == self@.tier(),
    {
        if self.release {
            Tier::Opt
        } else if self.check {
            Tier::Check
        } else {
            Tier::Debug
        }
    }

    pub fn is_clean(&self) -> (r: bool)
        ensures
            r == self@.is_clean(),
    {
        matches!(self.kind, RunKind::Clean)
    }

    pub fn is_nll(&self) -> (r: bool)
        ensures
            r == self@.is_nll(),
    {
        matches!(self.kind, RunKind::Nll)
    }

    pub fn is_base_incr(&self) -> (r: bool)
        ensures
            r == self@.is_base_incr(),
    {
        matches!(self.kind, RunKind::BaseIncr)
    }

    pub fn is_clean_incr(&self) -> (r: bool)
        ensures
            r == self@.is_clean_incr(),
    {
        matches!(self.kind, RunKind::CleanIncr)
    }

    pub fn is_println_incr(&self) -> (r: bool)
        ensures
            r == self@.is_println_incr(),
    {
        match &self.kind {
            RunKind::PatchedIncr(p) => str_eq(p.as_str(), "println"),
            _ => false,
        }
    }

    pub fn is_base_compile(&self) -> (r: bool)
        ensures
            r == self@.is_base_compile(),
    {
        matches!(self.kind, RunKind::Clean)
    }

    pub fn is_patch(&self) -> (r: bool)
        ensures
            r == self@.is_patch(),
    {
        matches!(self.kind, RunKind::PatchedIncr(_))
    }

    /// The metric's value on this run, if it was recorded.
    pub fn get_stat(&self, stat: &String) -> (r: Option<i64>)
        ensures
            r == stat_in(self@.stats, stat@),
    {
        let mut i: usize = 0;
        while i < self.stats.len()
            invariant
                0 <= i <= self.stats@.len(),
                self@.stats.len() == self.stats@.len(),
                forall|j: int| 0 <= j < i ==> (#[trigger] self@.stats[j]).0 != stat@,
                forall|j: int|
                    0 <= j < self.stats@.len() ==> (#[trigger] self@.stats[j]) == (
                    self.stats@[j].0@,
                    self.stats@[j].1,
                ),
            decreases self.stats@.len() - i,
        {
            if string_eq(&self.stats[i].0, stat) {
                proof {
                    lemma_stat_in_at(self@.stats, stat@, i as int);
                }
                return Some(self.stats[i].1);
            }
            i = i + 1;
        }
        proof {
            lemma_stat_in_none(self@.stats, stat@);
        }
        None
    }

    pub fn label(&self) -> (r: String)
        ensures
            r@ == self@.label(),
    {
        match &self.kind {
            RunKind::Clean => String::from_str("clean"),
            RunKind::Nll => String::from_str("nll"),
            RunKind::BaseIncr => String::from_str("baseline incremental"),
            RunKind::CleanIncr => String::from_str("clean incremental"),
            RunKind::PatchedIncr(p) => {
                let mut s = String::from_str("patched incremental: ");
                s.append(p.as_str());
                s
            },
        }
    }

    /// A copy of the run with the same ghost image.
    pub fn duplicate(&self) -> (r: Run)
        ensures
            r@ == self@,
    {
        let kind = match &self.kind {
            RunKind::Clean => RunKind::Clean,
            RunKind::Nll => RunKind::Nll,
            RunKind::BaseIncr => RunKind::BaseIncr,
            RunKind::CleanIncr => RunKind::CleanIncr,
            RunKind::PatchedIncr(p) => RunKind::PatchedIncr(p.clone()),
        };
        let mut stats: Vec<(String, i64)> = Vec::new();
        let mut i: usize = 0;
        while i < self.stats.len()
            invariant
                0 <= i <= self.stats@.len(),
                stats@.len() == i,
                forall|j: int|
                    0 <= j < i ==> (#[trigger] stats@[j]).0@ == self.stats@[j].0@ && stats@[j].1
                        == self.stats@[j].1,
            decreases self.stats@.len() - i,
        {
            stats.push((self.stats[i].0.clone(), self.stats[i].1));
            i = i + 1;
        }
        let r = Run { release: self.release, check: self.check, kind, stats };
        proof {
            assert(r@.stats =~= self@.stats);
        }
        r
    }
}

pub fn kind_equal(a: &RunKind, b: &RunKind) -> (r: bool)
    ensures
        r == (a@ == b@),
{
    match (a, b) {
        (RunKind::Clean, RunKind::Clean) => true,
        (RunKind::Nll, RunKind::Nll) => true,
        (RunKind::BaseIncr, RunKind::BaseIncr) => true,
        (RunKind::CleanIncr, RunKind::CleanIncr) => true,
        (RunKind::PatchedIncr(p), RunKind::PatchedIncr(q)) => str_eq(p.as_str(), q.as_str()),
        _ => false,
    }
}

/// Equality of owned strings by contents.
pub fn string_eq(a: &String, b: &String) -> (r: bool)
    ensures
        r == (a@ == b@),
{
    *a == *b
}

/// Equality of string slices by contents.
pub fn str_eq(a: &str, b: &str) -> (r: bool)
    ensures
        r == (a@ == b@),
{
    let x = a.to_owned();
    let y = b.to_owned();
    x == y
}

/// First value bound to `k` in a metric list, if any.
pub open spec fn stat_in(s: Seq<(Seq<char>, i64)>, k: Seq<char>) -> Option<i64>
    decreases s.len(),
{
    if s.len() == 0 {
        None
    } else if s[0].0 == k {
        Some(s[0].1)
    } else {
        stat_in(s.drop_first(), k)
    }
}

pub proof fn lemma_stat_in_at(s: Seq<(Seq<char>, i64)>, k: Seq<char>, i: int)
    requires
        0 <= i < s.len(),
        s[i].0 == k,
        forall|j: int| 0 <= j < i ==> (#[trigger] s[j]).0 != k,
    ensures
        stat_in(s, k) == Some(s[i].1),
    decreases i,
{
    if i > 0 {
        lemma_stat_in_at(s.drop_first(), k, i - 1);
    }
}

pub proof fn lemma_stat_in_none(s: Seq<(Seq<char>, i64)>, k: Seq<char>)
    requires
        forall|j: int| 0 <= j < s.len() ==> (#[trigger] s[j]).0 != k,
    ensures
        stat_in(s, k) is None,
    decreases s.len(),
{
    if s.len() > 0 {
        lemma_stat_in_none(s.drop_first(), k);
    }
}

/// First value bound to `k` in an association list, if any.
pub open spec fn assoc_get<V>(s: Seq<(String, V)>, k: Seq<char>) -> Option<V>
    decreases s.len(),
{
    if s.len() == 0 {
        None
    } else if s[0].0@ == k {
        Some(s[0].1)
    } else {
        assoc_get(s.drop_first(), k)
    }
}

/// No entry of the association list is bound to `k`.
pub open spec fn assoc_absent<V>(s: Seq<(String, V)>, k: Seq<char>) -> bool {
    forall|i: int| 0 <= i < s.len() ==> (#[trigger] s[i]).0@ != k
}

/// Each key appears at most once.
pub open spec fn keys_unique<V>(s: Seq<(String, V)>) -> bool {
    forall|i: int, j: int|
        0 <= i < j < s.len() ==> (#[trigger] s[i]).0@ != (#[trigger] s[j]).0@
}

pub proof fn lemma_assoc_get_at<V>(s: Seq<(String, V)>, k: Seq<char>, i: int)
    requires
        0 <= i < s.len(),
        s[i].0@ == k,
        forall|j: int| 0 <= j < i ==> (#[trigger] s[j]).0@ != k,
    ensures
        assoc_get(s, k) == Some(s[i].1),
    decreases i,
{
    if i > 0 {
        lemma_assoc_get_at(s.drop_first(), k, i - 1);
    }
}

pub proof fn lemma_assoc_get_none<V>(s: Seq<(String, V)>, k: Seq<char>)
    requires
        assoc_absent(s, k),
    ensures
        assoc_get::<V>(s, k) is None,
    decreases s.len(),
{
    if s.len() > 0 {
        lemma_assoc_get_none(s.drop_first(), k);
    }
}

/// Index of the first entry for `k`, if any.
pub fn assoc_index<V>(v: &Vec<(String, V)>, k: &String) -> (r: Option<usize>)
    ensures
        match r {
            Some(i) => i < v@.len() && v@[i as int].0@ == k@ && (forall|j: int|
                0 <= j < i ==> (#[trigger] v@[j]).0@ != k@) && assoc_get(v@, k@) == Some(
                v@[i as int].1,
            ),
            None => assoc_absent(v@, k@) && assoc_get::<V>(v@, k@) is None,
        },
{
    let mut i: usize = 0;
    while i < v.len()
        invariant
            0 <= i <= v@.len(),
            forall|j: int| 0 <= j < i ==> (#[trigger] v@[j]).0@ != k@,
        decreases v@.len() - i,
    {
        if string_eq(&v[i].0, k) {
            proof {
                lemma_assoc_get_at(v@, k@, i as int);
            }
            return Some(i);
        }
        i = i + 1;
    }
    proof {
        lemma_assoc_get_none(v@, k@);
    }
    None
}

/// Every metric value of the run is a measurement the library accepts.
pub open spec fn run_wf(r: RunV) -> bool {
    forall|i: int| 0 <= i < r.stats.len() ==> amount_in_range((#[trigger] r.stats[i]).1)
}

pub open spec fn benchmark_wf(b: Benchmark) -> bool {
    forall|i: int| 0 <= i < b.runs@.len() ==> run_wf((#[trigger] b.runs@[i])@)
}

/// Well-formed sweep: unique benchmark keys, each successful entry named by
/// its key, every measurement in range, and a hash long enough to abbreviate.
pub open spec fn commit_data_wf(cd: CommitData) -> bool {
    &&& cd.commit.sha@.len() >= 8
    &&& keys_unique(cd.benchmarks@)
    &&& forall|i: int|
        0 <= i < cd.benchmarks@.len() ==> ((#[trigger] cd.benchmarks@[i]).1 matches Some(b) ==> (
        benchmark_wf(b) && b.name@ == cd.benchmarks@[i].0@))
}

/// Largest commit date the library accepts, in seconds since the epoch:
/// keeps millisecond timestamps within machine range.
pub const MAX_DATE: u64 = 100_000_000_000;

/// Well-formed snapshot: at least one commit, commits ordered by date
/// ascending, the recorded last date is the newest commit's, every date small
/// enough to carry in milliseconds, and every sweep well-formed.
pub open spec fn snapshot_wf(s: Snapshot) -> bool {
    &&& s.commits@.len() > 0
    &&& forall|i: int|
        0 <= i < s.commits@.len() ==> (#[trigger] s.commits@[i]).commit.date <= MAX_DATE
    &&& forall|i: int| 0 <= i < s.commits@.len() ==> commit_data_wf(#[trigger] s.commits@[i])
    &&& forall|i: int, j: int|
        0 <= i < j < s.commits@.len() ==> (#[trigger] s.commits@[i]).commit.date <= (
        #[trigger] s.commits@[j]).commit.date
    &&& s.last_date == s.commits@.last().commit.date
    &&& keys_unique(s.artifact_data@)
    &&& forall|i: int|
        0 <= i < s.artifact_data@.len() ==> commit_data_wf((#[trigger] s.artifact_data@[i]).1)
}

} // verus!
