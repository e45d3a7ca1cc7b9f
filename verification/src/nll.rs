//! The alternate-analysis comparison: per benchmark, the type-check-only
//! clean build against the alternate-analysis build, both rounded to one
//! decimal place, ordered by descending percent change; benchmarks without a
//! comparison come last, alphabetically.

use vstd::prelude::*;

verus! {

use crate::model::{
    Benchmark, RunV, Snapshot, commit_data_wf, runs_view, snapshot_wf, stat_in,
};
use crate::fixed::{
    amount_in_range, clamp_i64, pct_spec, percent_change, round_tenth_spec, round_to_tenth,
};
use crate::date_data::lemma_stat_in_range;

/// One benchmark's comparison: its name and the two rounded values, either of
/// which may be missing.
pub struct NllPoint {
    pub case: String,
    pub clean: Option<i64>,
    pub nll: Option<i64>,
}

/// The comparison response.
pub struct NllResponse {
    pub commit: String,
    pub points: Vec<NllPoint>,
}

/// The first type-check-tier run of the wanted kind: the alternate analysis
/// when `want_nll`, the clean build otherwise.
pub open spec fn check_run(runs: Seq<RunV>, want_nll: bool) -> Option<RunV>
    decreases runs.len(),
{
    if runs.len() == 0 {
        None
    } else if runs[0].check && (if want_nll {
        runs[0].is_nll()
    } else {
        runs[0].is_clean()
    }) {
        Some(runs[0])
    } else {
        check_run(runs.drop_first(), want_nll)
    }
}

/// The rounded value that run contributes, if it was found and recorded the
/// metric.
pub open spec fn check_value(runs: Seq<RunV>, want_nll: bool, stat: Seq<char>) -> Option<i64> {
    match check_run(runs, want_nll) {
        None => None,
        Some(r) => match stat_in(r.stats, stat) {
            None => None,
            Some(v) => Some(round_tenth_spec(v as int) as i64),
        },
    }
}

/// The comparisons a sweep yields, in benchmark order.
pub open spec fn nll_points_spec(
    benches: Seq<(String, Option<Benchmark>)>,
    stat: Seq<char>,
) -> Seq<(Seq<char>, Option<i64>, Option<i64>)>
    decreases benches.len(),
{
    if benches.len() == 0 {
        Seq::empty()
    } else {
        nll_points_spec(benches.drop_last(), stat) + (match benches.last().1 {
            None => Seq::empty(),
            Some(b) => seq![
                (
                    b.name@,
                    check_value(runs_view(b.runs@), false, stat),
                    check_value(runs_view(b.runs@), true, stat),
                ),
            ],
        })
    }
}

/// The plain image of a point.
pub open spec fn point_view(p: NllPoint) -> (Seq<char>, Option<i64>, Option<i64>) {
    (p.case@, p.clean, p.nll)
}

/// Some listed point has this image.
pub open spec fn point_listed(
    points: Seq<NllPoint>,
    t: (Seq<char>, Option<i64>, Option<i64>),
) -> bool {
    exists|i: int| 0 <= i < points.len() && point_view(#[trigger] points[i]) == t
}

/// The point's image stands in the expected list.
pub open spec fn spec_has(
    spec_points: Seq<(Seq<char>, Option<i64>, Option<i64>)>,
    p: NllPoint,
) -> bool {
    exists|j: int| 0 <= j < spec_points.len() && point_view(p) == #[trigger] spec_points[j]
}

/// The percent change a point reports: defined when both values are present
/// and the alternate value is positive.
pub open spec fn point_pct(p: NllPoint) -> Option<int> {
    match (p.clean, p.nll) {
        (Some(c), Some(n)) => if n > 0 {
            Some(clamp_i64(pct_spec(n as int, c as int)))
        } else {
            None
        },
        _ => None,
    }
}

/// Lexicographic order on character sequences.
pub open spec fn str_le(a: Seq<char>, b: Seq<char>) -> bool
    decreases a.len(),
{
    if a.len() == 0 {
        true
    } else if b.len() == 0 {
        false
    } else if a[0] == b[0] {
        str_le(a.drop_first(), b.drop_first())
    } else {
        (a[0] as int) < (b[0] as int)
    }
}

pub proof fn lemma_str_le_total(a: Seq<char>, b: Seq<char>)
    ensures
        str_le(a, b) || str_le(b, a),
    decreases a.len(),
{
    if a.len() > 0 && b.len() > 0 && a[0] == b[0] {
        lemma_str_le_total(a.drop_first(), b.drop_first());
    }
}

pub proof fn lemma_str_le_trans(a: Seq<char>, b: Seq<char>, c: Seq<char>)
    requires
        str_le(a, b),
        str_le(b, c),
    ensures
        str_le(a, c),
    decreases a.len(),
{
    if a.len() > 0 && b.len() > 0 && c.len() > 0 && a[0] == b[0] && b[0] == c[0] {
        lemma_str_le_trans(a.drop_first(), b.drop_first(), c.drop_first());
    }
}

/// `a` may stand before `b`: defined percent changes in descending order
/// before undefined ones, undefined ones alphabetically by name.
pub open spec fn nll_point_le(a: NllPoint, b: NllPoint) -> bool {
    match (point_pct(a), point_pct(b)) {
        (Some(x), Some(y)) => x >= y,
        (Some(_), None) => true,
        (None, Some(_)) => false,
        (None, None) => str_le(a.case@, b.case@),
    }
}

proof fn lemma_nll_le_total(a: NllPoint, b: NllPoint)
    ensures
        nll_point_le(a, b) || nll_point_le(b, a),
{
    lemma_str_le_total(a.case@, b.case@);
}

proof fn lemma_nll_le_trans(a: NllPoint, b: NllPoint, c: NllPoint)
    requires
        nll_point_le(a, b),
        nll_point_le(b, c),
    ensures
        nll_point_le(a, c),
{
    if point_pct(a) is None && point_pct(b) is None && point_pct(c) is None {
        lemma_str_le_trans(a.case@, b.case@, c.case@);
    }
}

/// Whether both values are present and in range.
pub open spec fn point_wf(p: NllPoint) -> bool {
    (p.clean matches Some(c) ==> amount_in_range(c)) && (p.nll matches Some(n) ==> amount_in_range(
        n,
    ))
}

fn str_le_exec(a: &String, b: &String) -> (r: bool)
    ensures
        r == str_le(a@, b@),
{
    let an = a.as_str().unicode_len();
    let bn = b.as_str().unicode_len();
    let mut i: usize = 0;
    proof {
        assert(a@.skip(0) =~= a@);
        assert(b@.skip(0) =~= b@);
    }
    while i < an && i < bn
        invariant
            0 <= i <= a@.len(),
            0 <= i <= b@.len(),
            an == a@.len(),
            bn == b@.len(),
            str_le(a@, b@) == str_le(a@.skip(i as int), b@.skip(i as int)),
        decreases a@.len() - i,
    {
        let ca = a.as_str().get_char(i);
        let cb = b.as_str().get_char(i);
        proof {
            assert(a@.skip(i as int)[0] == a@[i as int]);
            assert(b@.skip(i as int)[0] == b@[i as int]);
            assert(a@.skip(i as int).drop_first() =~= a@.skip(i + 1));
            assert(b@.skip(i as int).drop_first() =~= b@.skip(i + 1));
        }
        if ca != cb {
            return (ca as u32) < (cb as u32);
        }
        i = i + 1;
    }
    proof {
        if i >= a@.len() {
            assert(a@.skip(i as int).len() == 0);
        } else {
            assert(b@.skip(i as int).len() == 0);
            assert(a@.skip(i as int).len() > 0);
        }
    }
    an <= bn
}

fn nll_le_exec(a: &NllPoint, b: &NllPoint) -> (r: bool)
    requires
        point_wf(*a),
        point_wf(*b),
    ensures
        r == nll_point_le(*a, *b),
{
    let pa = point_pct_exec(a);
    let pb = point_pct_exec(b);
    match (pa, pb) {
        (Some(x), Some(y)) => x >= y,
        (Some(_), None) => true,
        (None, Some(_)) => false,
        (None, None) => str_le_exec(&a.case, &b.case),
    }
}

fn point_pct_exec(p: &NllPoint) -> (r: Option<i64>)
    requires
        point_wf(*p),
    ensures
        match r {
            Some(x) => point_pct(*p) == Some(x as int),
            None => point_pct(*p) is None,
        },
{
    match (&p.clean, &p.nll) {
        (Some(c), Some(n)) => {
            if *n > 0 {
                Some(percent_change(*n, *c))
            } else {
                None
            }
        },
        _ => None,
    }
}

proof fn lemma_nll_insert_to_multiset(s: Seq<NllPoint>, i: int, x: NllPoint)
    requires
        0 <= i <= s.len(),
    ensures
        s.insert(i, x).to_multiset() =~= s.to_multiset().insert(x),
{
    broadcast use vstd::seq_lib::group_to_multiset_ensures;
    broadcast use vstd::multiset::group_multiset_axioms;

    let s2 = s.insert(i, x);
    assert(s2[i] == x);
    assert(s2.remove(i) =~= s);
    assert(s2.remove(i).to_multiset() =~= s2.to_multiset().remove(s2[i]));
    assert(s.to_multiset() == s2.to_multiset().remove(x));
    assert(s2.to_multiset().count(x) > 0) by {
        assert(s2.contains(x));
    }
    assert forall|y: NllPoint|
        s.to_multiset().insert(x).count(y) == s2.to_multiset().count(y) by {
        if y == x {
            assert(s.to_multiset().count(x) == s2.to_multiset().count(x) - 1);
        } else {
            assert(s.to_multiset().count(y) == s2.to_multiset().count(y));
        }
    }
}

/// The points are ordered: defined percent changes descending, undefined
/// last, alphabetical among the undefined.
pub open spec fn nll_sorted(s: Seq<NllPoint>) -> bool {
    forall|i: int, j: int|
        0 <= i < j < s.len() ==> nll_point_le(#[trigger] s[i], #[trigger] s[j])
}

/// Insertion sort by the comparison order, stable.
fn sort_points(v: Vec<NllPoint>) -> (r: Vec<NllPoint>)
    requires
        forall|i: int| 0 <= i < v@.len() ==> point_wf(#[trigger] v@[i]),
    ensures
        r@.len() == v@.len(),
        nll_sorted(r@),
        r@.to_multiset() == v@.to_multiset(),
        forall|x: NllPoint| r@.contains(x) <==> v@.contains(x),
{
    broadcast use vstd::seq_lib::group_to_multiset_ensures;

    let mut w = v;
    let ghost orig = w@;
    let mut i: usize = 1;
    while i < w.len()
        invariant
            w@.len() == orig.len(),
            w@.len() == 0 ==> i == 1,
            w@.len() > 0 ==> 1 <= i <= w@.len(),
            w@.len() > 0 ==> nll_sorted(w@.subrange(0, i as int)),
            w@.to_multiset() == orig.to_multiset(),
            forall|q: int| 0 <= q < w@.len() ==> point_wf(#[trigger] w@[q]),
        decreases w@.len() - i,
    {
        let mut p: usize = 0;
        while p < i && nll_le_exec(&w[p], &w[i])
            invariant
                0 <= p <= i < w@.len(),
                forall|q: int| 0 <= q < w@.len() ==> point_wf(#[trigger] w@[q]),
                forall|q: int| 0 <= q < p ==> nll_point_le(#[trigger] w@[q], w@[i as int]),
            decreases i - p,
        {
            p = p + 1;
        }
        let ghost before = w@;
        let x = w.remove(i);
        let ghost mid = w@;
        w.insert(p, x);
        proof {
            broadcast use vstd::seq_lib::group_to_multiset_ensures;
            broadcast use vstd::multiset::group_multiset_axioms;

            assert(before.remove(i as int) =~= mid);
            assert(before.remove(i as int).to_multiset() =~= before.to_multiset().remove(
                before[i as int],
            ));
            assert(mid.to_multiset() == before.to_multiset().remove(x));
            lemma_nll_insert_to_multiset(mid, p as int, x);
            assert(before.to_multiset().count(x) > 0) by {
                assert(before.contains(x)) by {
                    assert(before[i as int] == x);
                }
            }
            assert(w@.to_multiset() =~= before.to_multiset());
            assert(forall|q: int| 0 <= q < i ==> #[trigger] mid[q] == before[q]);
            assert(forall|q: int| 0 <= q < p ==> #[trigger] w@[q] == before[q]);
            assert(w@[p as int] == x);
            assert(forall|q: int| p < q <= i ==> #[trigger] w@[q] == before[q - 1]);
            assert forall|u: int, v2: int| 0 <= u < v2 < i implies nll_point_le(
                #[trigger] before[u],
                #[trigger] before[v2],
            ) by {
                assert(before.subrange(0, i as int)[u] == before[u]);
                assert(before.subrange(0, i as int)[v2] == before[v2]);
            }
            if p < i {
                lemma_nll_le_total(before[p as int], x);
            }
            assert forall|q: int| p <= q < i implies nll_point_le(
                x,
                #[trigger] before[q],
            ) by {
                if q > p {
                    lemma_nll_le_trans(x, before[p as int], before[q]);
                }
            }
            assert forall|a: int, b: int| 0 <= a < b < i + 1 implies nll_point_le(
                #[trigger] w@[a],
                #[trigger] w@[b],
            ) by {
                if b < p {
                    assert(w@[a] == before[a] && w@[b] == before[b]);
                } else if b == p {
                    assert(w@[b] == x && nll_point_le(before[a], x));
                } else if a < p {
                    if a == b - 1 {
                        assert(w@[a] == before[a] && w@[b] == before[b - 1]);
                    } else {
                        assert(nll_point_le(before[a], before[b - 1]));
                    }
                } else if a == p {
                    assert(w@[a] == x && w@[b] == before[b - 1]);
                } else {
                    assert(w@[a] == before[a - 1] && w@[b] == before[b - 1]);
                }
            }
            assert(nll_sorted(w@.subrange(0, i + 1)));
            assert forall|q: int| 0 <= q < w@.len() implies point_wf(#[trigger] w@[q]) by {
                if q < p {
                    assert(w@[q] == before[q]);
                } else if q == p {
                    assert(w@[q] == before[i as int]);
                } else if q <= i {
                    assert(w@[q] == before[q - 1]);
                } else {
                    assert(w@[q] == mid[q - 1]);
                    assert(mid[q - 1] == before[q]);
                }
            }
        }
        i = i + 1;
    }
    proof {
        if w@.len() > 0 {
            assert(w@.subrange(0, w@.len() as int) =~= w@);
        }
        assert forall|x: NllPoint| w@.contains(x) <==> orig.contains(x) by {
            if w@.contains(x) {
                assert(w@.to_multiset().count(x) > 0);
            }
            if orig.contains(x) {
                assert(orig.to_multiset().count(x) > 0);
            }
        }
    }
    w
}

/// The alternate-analysis comparison for one resolved commit: per
/// non-failing benchmark, the rounded clean and alternate type-check values,
/// ordered by descending defined percent change, undefined last,
/// alphabetical among the undefined.
pub fn handle_nll_dashboard(data: &Snapshot, commit_idx: usize, stat: &String) -> (r: NllResponse)
    requires
        snapshot_wf(*data),
        commit_idx < data.commits@.len(),
    ensures
        ({
            let cd = data.commits@[commit_idx as int];
            let spec_points = nll_points_spec(cd.benchmarks@, stat@);
            &&& r.commit@ == cd.commit.sha@
            &&& nll_sorted(r.points@)
            &&& r.points@.len() == spec_points.len()
            &&& forall|i: int|
                0 <= i < r.points@.len() ==> spec_has(spec_points, #[trigger] r.points@[i])
            &&& forall|j: int|
                0 <= j < spec_points.len() ==> point_listed(
                    r.points@,
                    #[trigger] spec_points[j],
                )
        }),
{
    let cd = &data.commits[commit_idx];
    let ghost spec_points = nll_points_spec(cd.benchmarks@, stat@);
    let mut points: Vec<NllPoint> = Vec::new();
    let mut i: usize = 0;
    proof {
        assert(commit_data_wf(data.commits@[commit_idx as int]));
        assert(nll_points_spec(cd.benchmarks@.subrange(0, 0), stat@) =~= Seq::<
            (Seq<char>, Option<i64>, Option<i64>),
        >::empty());
    }
    while i < cd.benchmarks.len()
        invariant
            snapshot_wf(*data),
            commit_idx < data.commits@.len(),
            *cd == data.commits@[commit_idx as int],
            commit_data_wf(*cd),
            0 <= i <= cd.benchmarks@.len(),
            points@.len() == nll_points_spec(cd.benchmarks@.subrange(0, i as int), stat@).len(),
            forall|q: int|
                0 <= q < points@.len() ==> point_view(#[trigger] points@[q]) == nll_points_spec(
                    cd.benchmarks@.subrange(0, i as int),
                    stat@,
                )[q],
            forall|q: int| 0 <= q < points@.len() ==> point_wf(#[trigger] points@[q]),
        decreases cd.benchmarks@.len() - i,
    {
        let ghost pre = cd.benchmarks@.subrange(0, i as int);
        let ghost now = cd.benchmarks@.subrange(0, i + 1);
        proof {
            assert(now.drop_last() =~= pre);
            assert(now.last() == cd.benchmarks@[i as int]);
        }
        if let Some(b) = &cd.benchmarks[i].1 {
            let clean = find_check_value(b, false, stat);
            let nll = find_check_value(b, true, stat);
            let p = NllPoint { case: b.name.clone(), clean, nll };
            proof {
                assert(point_view(p) == (b.name@, clean, nll));
            }
            points.push(p);
        }
        i = i + 1;
    }
    proof {
        assert(cd.benchmarks@.subrange(0, cd.benchmarks@.len() as int) =~= cd.benchmarks@);
    }
    let ghost built = points@;
    let points = sort_points(points);
    proof {
        assert forall|q: int| 0 <= q < points@.len() implies spec_has(
            spec_points,
            #[trigger] points@[q],
        ) by {
            assert(points@.contains(points@[q]));
            assert(built.contains(points@[q]));
            let w = choose|w: int| 0 <= w < built.len() && built[w] == points@[q];
            assert(point_view(points@[q]) == spec_points[w]);
        }
        assert forall|j: int| 0 <= j < spec_points.len() implies point_listed(
            points@,
            #[trigger] spec_points[j],
        ) by {
            assert(built.contains(built[j]));
            assert(points@.contains(built[j]));
            let w = choose|w: int| 0 <= w < points@.len() && points@[w] == built[j];
            assert(point_view(points@[w]) == spec_points[j]);
        }
    }
    NllResponse { commit: cd.commit.sha.clone(), points }
}

/// The rounded value of the wanted type-check run of one benchmark.
fn find_check_value(b: &Benchmark, want_nll: bool, stat: &String) -> (r: Option<i64>)
    requires
        crate::model::benchmark_wf(*b),
    ensures
        r == check_value(runs_view(b.runs@), want_nll, stat@),
        r matches Some(x) ==> amount_in_range(x),
{
    let ghost rv = runs_view(b.runs@);
    let mut j: usize = 0;
    while j < b.runs.len()
        invariant
            crate::model::benchmark_wf(*b),
            rv == runs_view(b.runs@),
            rv.len() == b.runs@.len(),
            0 <= j <= b.runs@.len(),
            forall|q: int|
                0 <= q < j ==> !((#[trigger] rv[q]).check && (if want_nll {
                    rv[q].is_nll()
                } else {
                    rv[q].is_clean()
                })),
        decreases b.runs@.len() - j,
    {
        let run = &b.runs[j];
        proof {
            assert(rv[j as int] == b.runs@[j as int]@);
        }
        let is_kind = if want_nll {
            run.is_nll()
        } else {
            run.is_clean()
        };
        if run.check && is_kind {
            proof {
                lemma_check_run_at(rv, want_nll, j as int);
            }
            match run.get_stat(stat) {
                Some(v) => {
                    proof {
                        assert(crate::model::run_wf(b.runs@[j as int]@));
                        lemma_stat_in_range(b.runs@[j as int]@.stats, stat@);
                    }
                    return Some(round_to_tenth(v));
                },
                None => {
                    return None;
                },
            }
        }
        j = j + 1;
    }
    proof {
        lemma_check_run_none(rv, want_nll);
    }
    None
}

proof fn lemma_check_run_at(runs: Seq<RunV>, want_nll: bool, i: int)
    requires
        0 <= i < runs.len(),
        runs[i].check && (if want_nll {
            runs[i].is_nll()
        } else {
            runs[i].is_clean()
        }),
        forall|q: int|
            0 <= q < i ==> !((#[trigger] runs[q]).check && (if want_nll {
                runs[q].is_nll()
            } else {
                runs[q].is_clean()
            })),
    ensures
        check_run(runs, want_nll) == Some(runs[i]),
    decreases i,
{
    if i > 0 {
        lemma_check_run_at(runs.drop_first(), want_nll, i - 1);
    }
}

proof fn lemma_check_run_none(runs: Seq<RunV>, want_nll: bool)
    requires
        forall|q: int|
            0 <= q < runs.len() ==> !((#[trigger] runs[q]).check && (if want_nll {
                runs[q].is_nll()
            } else {
                runs[q].is_clean()
            })),
    ensures
        check_run(runs, want_nll) is None,
    decreases runs.len(),
{
    if runs.len() > 0 {
        lemma_check_run_none(runs.drop_first(), want_nll);
    }
}

} // verus!
