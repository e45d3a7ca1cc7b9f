//! Ordering of reference-build names: numeric semantic-version order first,
//! then "beta"; the synthetic "master" entry is appended after sorting.

use vstd::prelude::*;

verus! {

/// What `semver::Version::parse` yields on a name: the numeric
/// (major, minor, patch) triple, or nothing when the name is not a semantic
/// version.  The result depends on the characters alone.
pub uninterp spec fn semver_triple(s: Seq<char>) -> Option<(u64, u64, u64)>;

/// Relies on `semver::Version::parse` to recognize semantic versions and
/// extract the numeric triple.
#[verifier::external_body]
pub(crate) fn parse_version(s: &str) -> (r: Option<(u64, u64, u64)>)
    ensures
        r == semver_triple(s@),
{
    match semver::Version::parse(s) {
        Ok(v) => Some((v.major, v.minor, v.patch)),
        Err(_) => None,
    }
}

/// Sort key of a reference-build name: numeric versions in numeric order,
/// then "beta" after every numeric version.
pub type VersionKey = (u64, u64, u64, u64);

/// The key a name sorts by, if the name is admissible: a parsed triple keyed
/// below, "beta" keyed above; anything else is a configuration defect.
pub open spec fn key_of(name: Seq<char>) -> Option<VersionKey> {
    match semver_triple(name) {
        Some(t) => Some((0u64, t.0, t.1, t.2)),
        None => if name == "beta"@ {
            Some((1u64, 0u64, 0u64, 0u64))
        } else {
            None
        },
    }
}

/// Whether the toolchain the name denotes supports incremental compilation:
/// numeric versions from 1.24 on do; "beta" and "master" builds do.
pub open spec fn incr_ok_p(p: Option<(u64, u64, u64)>) -> bool {
    match p {
        Some(t) => t.0 > 1 || (t.0 == 1 && t.1 >= 24),
        None => true,
    }
}

pub open spec fn incr_ok(name: Seq<char>) -> bool {
    incr_ok_p(semver_triple(name))
}

/// Lexicographic order on version keys.
pub open spec fn key_le(a: VersionKey, b: VersionKey) -> bool {
    a.0 < b.0 || (a.0 == b.0 && (a.1 < b.1 || (a.1 == b.1 && (a.2 < b.2 || (a.2 == b.2 && a.3
        <= b.3)))))
}

pub fn key_le_exec(a: &VersionKey, b: &VersionKey) -> (r: bool)
    ensures
        r == key_le(*a, *b),
{
    a.0 < b.0 || (a.0 == b.0 && (a.1 < b.1 || (a.1 == b.1 && (a.2 < b.2 || (a.2 == b.2 && a.3
        <= b.3)))))
}

/// A name with its sort key.
pub type VersionItem = (VersionKey, String);

/// The list is ordered by key.
pub open spec fn sorted_by_key(s: Seq<VersionItem>) -> bool {
    forall|i: int, j: int|
        0 <= i < j < s.len() ==> key_le((#[trigger] s[i]).0, (#[trigger] s[j]).0)
}

proof fn lemma_key_total(a: VersionKey, b: VersionKey)
    ensures
        key_le(a, b) || key_le(b, a),
{
}

proof fn lemma_key_trans(a: VersionKey, b: VersionKey, c: VersionKey)
    requires
        key_le(a, b),
        key_le(b, c),
    ensures
        key_le(a, c),
{
}

proof fn lemma_insert_to_multiset(s: Seq<VersionItem>, i: int, x: VersionItem)
    requires
        0 <= i <= s.len(),
    ensures
        s.insert(i, x).to_multiset() =~= s.to_multiset().insert(x),
{
    broadcast use vstd::seq_lib::group_to_multiset_ensures;
    broadcast use vstd::multiset::group_multiset_axioms;

    let s2 = s.insert(i, x);
    assert(s2[i] == x);
    assert(s2.remove(i) =~= s);
    assert(s2.remove(i).to_multiset() =~= s2.to_multiset().remove(s2[i]));
    assert(s.to_multiset() == s2.to_multiset().remove(x));
    assert(s2.to_multiset().count(x) > 0) by {
        assert(s2.contains(x));
    }
    assert forall|y: VersionItem|
        s.to_multiset().insert(x).count(y) == s2.to_multiset().count(y) by {
        if y == x {
            assert(s.to_multiset().count(x) == s2.to_multiset().count(x) - 1);
        } else {
            assert(s.to_multiset().count(y) == s2.to_multiset().count(y));
        }
    }
}

/// Insertion sort, stable, ordered by `key_le`.
pub fn sort_versions(v: Vec<VersionItem>) -> (r: Vec<VersionItem>)
    ensures
        r@.len() == v@.len(),
        sorted_by_key(r@),
        r@.to_multiset() == v@.to_multiset(),
        forall|x: VersionItem| r@.contains(x) <==> v@.contains(x),
{
    broadcast use vstd::seq_lib::group_to_multiset_ensures;

    let mut w = v;
    let ghost orig = w@;
    let mut i: usize = 1;
    while i < w.len()
        invariant
            w@.len() == orig.len(),
            w@.len() == 0 ==> i == 1,
            w@.len() > 0 ==> 1 <= i <= w@.len(),
            w@.len() > 0 ==> sorted_by_key(w@.subrange(0, i as int)),
            w@.to_multiset() == orig.to_multiset(),
        decreases w@.len() - i,
    {
        let mut p: usize = 0;
        while p < i && key_le_exec(&w[p].0, &w[i].0)
            invariant
                0 <= p <= i < w@.len(),
                forall|q: int| 0 <= q < p ==> key_le((#[trigger] w@[q]).0, w@[i as int].0),
            decreases i - p,
        {
            p = p + 1;
        }
        let ghost before = w@;
        let x = w.remove(i);
        let ghost mid = w@;
        w.insert(p, x);
        proof {
            broadcast use vstd::seq_lib::group_to_multiset_ensures;
            broadcast use vstd::multiset::group_multiset_axioms;

            assert(before.remove(i as int) =~= mid);
            assert(before.remove(i as int).to_multiset() =~= before.to_multiset().remove(
                before[i as int],
            ));
            assert(mid.to_multiset() == before.to_multiset().remove(x));
            lemma_insert_to_multiset(mid, p as int, x);
            assert(before.to_multiset().count(x) > 0) by {
                assert(before.contains(x)) by {
                    assert(before[i as int] == x);
                }
            }
            assert(w@.to_multiset() =~= before.to_multiset());
            assert(forall|q: int| 0 <= q < i ==> #[trigger] mid[q] == before[q]);
            assert(forall|q: int| 0 <= q < p ==> #[trigger] w@[q] == before[q]);
            assert(w@[p as int] == x);
            assert(forall|q: int| p < q <= i ==> #[trigger] w@[q] == before[q - 1]);
            assert forall|u: int, v2: int| 0 <= u < v2 < i implies key_le(
                (#[trigger] before[u]).0,
                (#[trigger] before[v2]).0,
            ) by {
                assert(before.subrange(0, i as int)[u] == before[u]);
                assert(before.subrange(0, i as int)[v2] == before[v2]);
            }
            if p < i {
                lemma_key_total(before[p as int].0, x.0);
            }
            assert forall|q: int| p <= q < i implies key_le(x.0, (#[trigger] before[q]).0) by {
                if q > p {
                    lemma_key_trans(x.0, before[p as int].0, before[q].0);
                }
            }
            assert forall|a: int, b: int| 0 <= a < b < i + 1 implies key_le(
                (#[trigger] w@[a]).0,
                (#[trigger] w@[b]).0,
            ) by {
                if b < p {
                    assert(w@[a] == before[a] && w@[b] == before[b]);
                } else if b == p {
                    assert(w@[b] == x && key_le(before[a].0, x.0));
                } else if a < p {
                    if a == b - 1 {
                        assert(w@[a] == before[a] && w@[b] == before[b - 1]);
                    } else {
                        assert(key_le(before[a].0, before[b - 1].0));
                    }
                } else if a == p {
                    assert(w@[a] == x && w@[b] == before[b - 1]);
                } else {
                    assert(w@[a] == before[a - 1] && w@[b] == before[b - 1]);
                }
            }
            assert(sorted_by_key(w@.subrange(0, i + 1)));
        }
        i = i + 1;
    }
    proof {
        if w@.len() > 0 {
            assert(w@.subrange(0, w@.len() as int) =~= w@);
        }
        assert forall|x: VersionItem| w@.contains(x) <==> orig.contains(x) by {
            if w@.contains(x) {
                assert(w@.to_multiset().count(x) > 0);
            }
            if orig.contains(x) {
                assert(orig.to_multiset().count(x) > 0);
            }
        }
    }
    w
}

} // verus!
