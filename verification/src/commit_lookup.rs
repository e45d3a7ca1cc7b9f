//! Point-in-time commit lookups over an externally fetched commit list:
//! the latest commit strictly before a date, and the first commit whose
//! summary names a pull request.  Absence is data, not failure.

use vstd::prelude::*;

verus! {

use vstd::string::{StringExecFns, StrSliceExecFns};
use crate::model::Commit;

/// The decimal digit character of `d`.
pub open spec fn digit_char(d: int) -> char {
    if d == 0 {
        '0'
    } else if d == 1 {
        '1'
    } else if d == 2 {
        '2'
    } else if d == 3 {
        '3'
    } else if d == 4 {
        '4'
    } else if d == 5 {
        '5'
    } else if d == 6 {
        '6'
    } else if d == 7 {
        '7'
    } else if d == 8 {
        '8'
    } else {
        '9'
    }
}

/// The decimal writing of `n`, without leading zeroes.
pub open spec fn dec_rep(n: nat) -> Seq<char>
    decreases n,
{
    if n < 10 {
        seq![digit_char(n as int)]
    } else {
        dec_rep(n / 10).push(digit_char((n % 10) as int))
    }
}

fn digit_string(d: u64) -> (r: String)
    requires
        d < 10,
    ensures
        r@ =~= seq![digit_char(d as int)],
{
    let s = match d {
        0 => {
            proof {
                reveal_strlit("0");
            }
            String::from_str("0")
        },
        1 => {
            proof {
                reveal_strlit("1");
            }
            String::from_str("1")
        },
        2 => {
            proof {
                reveal_strlit("2");
            }
            String::from_str("2")
        },
        3 => {
            proof {
                reveal_strlit("3");
            }
            String::from_str("3")
        },
        4 => {
            proof {
                reveal_strlit("4");
            }
            String::from_str("4")
        },
        5 => {
            proof {
                reveal_strlit("5");
            }
            String::from_str("5")
        },
        6 => {
            proof {
                reveal_strlit("6");
            }
            String::from_str("6")
        },
        7 => {
            proof {
                reveal_strlit("7");
            }
            String::from_str("7")
        },
        8 => {
            proof {
                reveal_strlit("8");
            }
            String::from_str("8")
        },
        _ => {
            proof {
                reveal_strlit("9");
            }
            String::from_str("9")
        },
    };
    s
}

/// Writes `n` in decimal.
pub fn u64_to_string(n: u64) -> (r: String)
    ensures
        r@ == dec_rep(n as nat),
    decreases n,
{
    if n < 10 {
        digit_string(n)
    } else {
        let mut s = u64_to_string(n / 10);
        let d = digit_string(n % 10);
        s.append(d.as_str());
        proof {
            assert(s@ =~= dec_rep((n / 10) as nat).push(digit_char((n % 10) as int)));
        }
        s
    }
}

/// The needle occurs contiguously in the haystack.
pub open spec fn contains_sub(hay: Seq<char>, nee: Seq<char>) -> bool {
    exists|k: int|
        0 <= k && k + nee.len() <= hay.len() && #[trigger] hay.subrange(k, k + nee.len()) == nee
}

/// Whether the needle occurs in the haystack.
pub fn contains_sub_exec(hay: &str, nee: &str) -> (r: bool)
    ensures
        r == contains_sub(hay@, nee@),
{
    let hn = hay.unicode_len();
    let nn = nee.unicode_len();
    if nn > hn {
        return false;
    }
    if nn == 0 {
        proof {
            assert(hay@.subrange(0, 0 + nee@.len() as int) =~= nee@);
            assert(contains_sub(hay@, nee@));
        }
        return true;
    }
    let mut k: usize = 0;
    while k <= hn - nn
        invariant
            hn == hay@.len(),
            nn == nee@.len(),
            1 <= nn <= hn,
            0 <= k <= hn - nn + 1,
            forall|kk: int|
                0 <= kk < k ==> #[trigger] hay@.subrange(kk, kk + nee@.len()) != nee@,
        decreases hn - nn - k + 1,
    {
        let mut j: usize = 0;
        let mut matched = true;
        while j < nn && matched
            invariant
                hn == hay@.len(),
                nn == nee@.len(),
                0 <= k <= hn - nn,
                0 <= j <= nn,
                matched ==> forall|q: int| 0 <= q < j ==> hay@[k + q] == nee@[q],
                !matched ==> hay@.subrange(k as int, k + nee@.len()) != nee@,
            decreases nn - j,
        {
            let hc = hay.get_char(k + j);
            let nc = nee.get_char(j);
            if hc != nc {
                proof {
                    assert(hay@.subrange(k as int, k + nee@.len())[j as int] == hay@[k + j]);
                }
                matched = false;
                j = nn;
            } else {
                j = j + 1;
            }
        }
        if matched {
            proof {
                assert(hay@.subrange(k as int, k + nee@.len()) =~= nee@);
            }
            return true;
        }
        k = k + 1;
    }
    proof {
        assert forall|kk: int| 0 <= kk && kk + nee@.len() <= hay@.len() implies #[trigger] hay@.subrange(
            kk,
            kk + nee@.len(),
        ) != nee@ by {
            assert(kk < k);
        }
    }
    false
}

/// The latest commit of the list strictly before `date`: the commit list is
/// scanned from its end, as the lists handed in are ordered oldest first.
pub fn commit_as_of(commits: &Vec<Commit>, date: u64) -> (r: Option<String>)
    ensures
        match r {
            Some(s) => exists|i: int|
                0 <= i < commits@.len() && (#[trigger] commits@[i]).date < date && s@
                    == commits@[i].sha@ && (forall|j: int|
                    i < j < commits@.len() ==> (#[trigger] commits@[j]).date >= date),
            None => forall|j: int| 0 <= j < commits@.len() ==> (#[trigger] commits@[j]).date >= date,
        },
{
    let mut i: usize = commits.len();
    while i > 0
        invariant
            0 <= i <= commits@.len(),
            forall|j: int| i <= j < commits@.len() ==> (#[trigger] commits@[j]).date >= date,
        decreases i,
    {
        i = i - 1;
        if commits[i].date < date {
            return Some(commits[i].sha.clone());
        }
    }
    None
}

/// The first commit of the list whose summary holds the literal token
/// `#<pr>`.
pub fn commit_for_pr(commits: &Vec<Commit>, pr: u64) -> (r: Option<String>)
    ensures
        ({
            let tok = "#"@ + dec_rep(pr as nat);
            match r {
                Some(s) => exists|i: int|
                    0 <= i < commits@.len() && contains_sub(
                        (#[trigger] commits@[i]).summary@,
                        tok,
                    ) && s@ == commits@[i].sha@ && (forall|j: int|
                        0 <= j < i ==> !contains_sub((#[trigger] commits@[j]).summary@, tok)),
                None => forall|j: int|
                    0 <= j < commits@.len() ==> !contains_sub(
                        (#[trigger] commits@[j]).summary@,
                        tok,
                    ),
            }
        }),
{
    proof {
        reveal_strlit("#");
    }
    let digits = u64_to_string(pr);
    let tok = String::from_str("#").concat(digits.as_str());
    let ghost tokv = "#"@ + dec_rep(pr as nat);
    let mut i: usize = 0;
    while i < commits.len()
        invariant
            tok@ == tokv,
            tokv == "#"@ + dec_rep(pr as nat),
            0 <= i <= commits@.len(),
            forall|j: int| 0 <= j < i ==> !contains_sub((#[trigger] commits@[j]).summary@, tokv),
        decreases commits@.len() - i,
    {
        if contains_sub_exec(commits[i].summary.as_str(), tok.as_str()) {
            return Some(commits[i].sha.clone());
        }
        i = i + 1;
    }
    None
}

} // verus!
