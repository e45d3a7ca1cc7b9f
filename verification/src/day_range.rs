//! Day-range aggregation: a contiguous run of commits mapped to per-day
//! summaries, with empty leading and trailing days trimmed away.

use vstd::prelude::*;

verus! {

use crate::model::{CommitData, ServerError, ServerResult, Snapshot, snapshot_wf};
use crate::date_data::{DateData, DateDataV, date_data_wf, day_entries};

/// The per-day summary a commit yields for one metric.
pub open spec fn day_view(cd: CommitData, stat: Seq<char>) -> DateDataV {
    DateDataV {
        date: cd.commit.date,
        commit: cd.commit.sha@,
        data: day_entries(cd.benchmarks@, stat),
    }
}

/// The summaries a run of commits yields, in order.
pub open spec fn days_of(range: Seq<CommitData>, stat: Seq<char>) -> Seq<DateDataV> {
    range.map(|i: int, cd: CommitData| day_view(cd, stat))
}

/// Ghost images of a built list of summaries.
pub open spec fn days_view(v: Seq<DateData>) -> Seq<DateDataV> {
    v.map(|i: int, d: DateData| d@)
}

/// A day with no samples at all.
pub open spec fn day_empty(d: DateDataV) -> bool {
    d.data.len() == 0
}

/// No day of the range has any samples.
pub open spec fn all_empty(days: Seq<DateDataV>) -> bool {
    forall|i: int| 0 <= i < days.len() ==> day_empty(#[trigger] days[i])
}

/// Index of the first day with samples.
pub open spec fn first_ne(days: Seq<DateDataV>) -> int
    recommends
        !all_empty(days),
    decreases days.len(),
{
    if days.len() == 0 {
        0
    } else if days[0].data.len() > 0 {
        0
    } else {
        1 + first_ne(days.drop_first())
    }
}

/// Index of the last day with samples.
pub open spec fn last_ne(days: Seq<DateDataV>) -> int
    recommends
        !all_empty(days),
    decreases days.len(),
{
    if days.len() == 0 {
        0
    } else if days.last().data.len() > 0 {
        days.len() - 1
    } else {
        last_ne(days.drop_last())
    }
}

/// Everything from the first day with samples to the last one; interior days
/// without samples are preserved.
pub open spec fn trim_spec(days: Seq<DateDataV>) -> Seq<DateDataV>
    recommends
        !all_empty(days),
{
    days.subrange(first_ne(days), last_ne(days) + 1)
}

pub proof fn lemma_first_ne(days: Seq<DateDataV>)
    requires
        !all_empty(days),
    ensures
        0 <= first_ne(days) < days.len(),
        !day_empty(days[first_ne(days)]),
        forall|j: int| 0 <= j < first_ne(days) ==> day_empty(#[trigger] days[j]),
    decreases days.len(),
{
    let w = choose|i: int| 0 <= i < days.len() && !day_empty(days[i]);
    if days[0].data.len() > 0 {
    } else {
        assert(!day_empty(days.drop_first()[w - 1]));
        lemma_first_ne(days.drop_first());
        assert forall|j: int| 0 <= j < first_ne(days) implies day_empty(#[trigger] days[j]) by {
            if j > 0 {
                assert(days[j] == days.drop_first()[j - 1]);
            }
        }
    }
}

pub proof fn lemma_last_ne(days: Seq<DateDataV>)
    requires
        !all_empty(days),
    ensures
        0 <= last_ne(days) < days.len(),
        !day_empty(days[last_ne(days)]),
        forall|j: int| last_ne(days) < j < days.len() ==> day_empty(#[trigger] days[j]),
    decreases days.len(),
{
    let w = choose|i: int| 0 <= i < days.len() && !day_empty(days[i]);
    if days.last().data.len() > 0 {
    } else {
        assert(!day_empty(days.drop_last()[w]));
        lemma_last_ne(days.drop_last());
        assert forall|j: int| last_ne(days) < j < days.len() implies day_empty(
            #[trigger] days[j],
        ) by {
            if j < days.len() - 1 {
                assert(days[j] == days.drop_last()[j]);
            }
        }
    }
}

/// Trimming is idempotent: a range already trimmed trims to itself.
pub proof fn lemma_trim_idempotent(days: Seq<DateDataV>)
    requires
        !all_empty(days),
    ensures
        !all_empty(trim_spec(days)),
        trim_spec(trim_spec(days)) == trim_spec(days),
{
    lemma_first_ne(days);
    lemma_last_ne(days);
    let f = first_ne(days);
    let l = last_ne(days);
    assert(f <= l);
    let t = trim_spec(days);
    assert(t[0] == days[f]);
    assert(t.last() == days[l]);
    assert(!day_empty(t[0]));
    assert(first_ne(t) == 0);
    assert(last_ne(t) == t.len() - 1);
    assert(trim_spec(t) =~= t);
}

/// Day-range aggregation: maps each commit of `commits[start..end]` to its
/// per-day summary for `stat` and trims empty leading and trailing days.
/// Fails with an empty-range error exactly when no day of the resolved range
/// has any samples (in particular when the range holds no commits at all).
pub fn handle_data(data: &Snapshot, start: usize, end: usize, stat: &String) -> (r: ServerResult<
    Vec<DateData>,
>)
    requires
        snapshot_wf(*data),
        start <= end <= data.commits@.len(),
    ensures
        ({
            let days = days_of(data.commits@.subrange(start as int, end as int), stat@);
            match r {
                Err(e) => e == ServerError::EmptyRange && all_empty(days),
                Ok(v) => {
                    &&& !all_empty(days)
                    &&& days_view(v@) == trim_spec(days)
                    &&& v@.len() > 0
                    &&& forall|i: int| 0 <= i < v@.len() ==> date_data_wf((#[trigger] v@[i])@)
                },
            }
        }),
{
    let ghost days = days_of(data.commits@.subrange(start as int, end as int), stat@);
    let n = end - start;
    let mut all: Vec<DateData> = Vec::new();
    let mut k: usize = 0;
    while k < n
        invariant
            snapshot_wf(*data),
            start <= end <= data.commits@.len(),
            n == end - start,
            days == days_of(data.commits@.subrange(start as int, end as int), stat@),
            days.len() == n,
            0 <= k <= n,
            all@.len() == k,
            forall|j: int| 0 <= j < k ==> (#[trigger] all@[j])@ == days[j],
        decreases n - k,
    {
        let d = DateData::for_day(&data.commits[start + k], stat);
        proof {
            assert(data.commits@.subrange(start as int, end as int)[k as int] == data.commits@[start
                + k]);
            assert(d@ =~= day_view(data.commits@[(start + k) as int], stat@));
        }
        all.push(d);
        k = k + 1;
    }
    let mut first_opt: Option<usize> = None;
    let mut last_opt: Option<usize> = None;
    let mut k2: usize = 0;
    while k2 < n
        invariant
            n == all@.len(),
            days.len() == n,
            forall|j: int| 0 <= j < n ==> (#[trigger] all@[j])@ == days[j],
            0 <= k2 <= n,
            match first_opt {
                None => forall|j: int| 0 <= j < k2 ==> day_empty(#[trigger] days[j]),
                Some(f) => f < k2 && !day_empty(days[f as int]) && (forall|j: int|
                    0 <= j < f ==> day_empty(#[trigger] days[j])),
            },
            match last_opt {
                None => forall|j: int| 0 <= j < k2 ==> day_empty(#[trigger] days[j]),
                Some(l) => l < k2 && !day_empty(days[l as int]) && (forall|j: int|
                    l < j < k2 ==> day_empty(#[trigger] days[j])),
            },
            first_opt is None <==> last_opt is None,
        decreases n - k2,
    {
        if all[k2].data.len() > 0 {
            if matches!(first_opt, None) {
                first_opt = Some(k2);
            }
            last_opt = Some(k2);
        }
        k2 = k2 + 1;
    }
    let (first, last) = match (first_opt, last_opt) {
        (Some(f), Some(l)) => (f, l),
        _ => {
            return Err(ServerError::EmptyRange);
        },
    };
    proof {
        assert(!all_empty(days));
        lemma_first_ne(days);
        lemma_last_ne(days);
        assert(first_ne(days) == first);
        assert(last_ne(days) == last);
    }
    let mut out: Vec<DateData> = Vec::new();
    let mut m: usize = first;
    while m <= last
        invariant
            snapshot_wf(*data),
            start <= end <= data.commits@.len(),
            n == end - start,
            days == days_of(data.commits@.subrange(start as int, end as int), stat@),
            days.len() == n,
            first <= m <= last + 1,
            last < n,
            out@.len() == m - first,
            forall|j: int| 0 <= j < out@.len() ==> (#[trigger] out@[j])@ == days[first + j],
            forall|j: int| 0 <= j < out@.len() ==> date_data_wf((#[trigger] out@[j])@),
        decreases last + 1 - m,
    {
        let d = DateData::for_day(&data.commits[start + m], stat);
        proof {
            assert(data.commits@.subrange(start as int, end as int)[m as int] == data.commits@[start
                + m]);
            assert(d@ =~= day_view(data.commits@[(start + m) as int], stat@));
        }
        out.push(d);
        m = m + 1;
    }
    proof {
        assert(days_view(out@) =~= trim_spec(days));
    }
    Ok(out)
}

/// The two summaries of a two-point comparison, side by side.
pub struct DaysResponse {
    pub a: DateData,
    pub b: DateData,
}

/// Two-point comparison: the per-day summaries of two resolved commits.
pub fn handle_days(data: &Snapshot, a: usize, b: usize, stat: &String) -> (r: DaysResponse)
    requires
        snapshot_wf(*data),
        a < data.commits@.len(),
        b < data.commits@.len(),
    ensures
        r.a@ == day_view(data.commits@[a as int], stat@),
        r.b@ == day_view(data.commits@[b as int], stat@),
        date_data_wf(r.a@),
        date_data_wf(r.b@),
{
    let da = DateData::for_day(&data.commits[a], stat);
    let db = DateData::for_day(&data.commits[b], stat);
    proof {
        assert(da@ =~= day_view(data.commits@[a as int], stat@));
        assert(db@ =~= day_view(data.commits@[b as int], stat@));
    }
    DaysResponse { a: da, b: db }
}

} // verus!
