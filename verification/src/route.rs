//! The request dispatcher's decisions: a static mapping from method and path
//! to a typed handler, the request-body size guard, static-file path
//! hygiene, and decimal parsing for query values.

use vstd::prelude::*;

verus! {

use vstd::string::{StringExecFns, StrSliceExecFns};
use crate::model::str_eq;
use crate::commit_lookup::{contains_sub, contains_sub_exec};

/// The HTTP methods the dispatcher distinguishes.
#[derive(Clone, Copy, PartialEq, Eq, Structural, Debug)]
pub enum HttpMethod {
    Get,
    Post,
    Other,
}

/// The served endpoints.
#[derive(Clone, Copy, PartialEq, Eq, Structural, Debug)]
pub enum Endpoint {
    Info,
    Dashboard,
    Data,
    Graph,
    GetDays,
    NllDashboard,
    PrCommit,
    DateCommit,
    OnPush,
}

/// What the dispatcher does with a request line.
#[derive(Clone, Copy, PartialEq, Eq, Structural, Debug)]
pub enum Dispatch {
    NotFound,
    MethodNotAllowed,
    Handle(Endpoint),
}

/// Largest accepted declared request-body length, in bytes.
pub const MAX_BODY_BYTES: u64 = 10_000;

/// The endpoint a path names, if any.
pub open spec fn route_spec(p: Seq<char>) -> Option<Endpoint> {
    if p == "/perf/info"@ {
        Some(Endpoint::Info)
    } else if p == "/perf/dashboard"@ {
        Some(Endpoint::Dashboard)
    } else if p == "/perf/data"@ {
        Some(Endpoint::Data)
    } else if p == "/perf/graph"@ {
        Some(Endpoint::Graph)
    } else if p == "/perf/get"@ {
        Some(Endpoint::GetDays)
    } else if p == "/perf/nll_dashboard"@ {
        Some(Endpoint::NllDashboard)
    } else if p == "/perf/pr_commit"@ {
        Some(Endpoint::PrCommit)
    } else if p == "/perf/date_commit"@ {
        Some(Endpoint::DateCommit)
    } else if p == "/perf/onpush"@ {
        Some(Endpoint::OnPush)
    } else {
        None
    }
}

/// Whether the method is accepted at the endpoint: reads take GET, queries
/// with a body take POST, and the refresh hook takes any method.
pub open spec fn method_ok(m: HttpMethod, e: Endpoint) -> bool {
    match e {
        Endpoint::Info => m is Get,
        Endpoint::Dashboard => m is Get,
        Endpoint::Data => m is Post,
        Endpoint::Graph => m is Post,
        Endpoint::GetDays => m is Post,
        Endpoint::NllDashboard => m is Post,
        Endpoint::PrCommit => m is Get,
        Endpoint::DateCommit => m is Get,
        Endpoint::OnPush => true,
    }
}

/// What the dispatcher does with a request line: an unknown path is not
/// found, a known path with the wrong method is turned away, anything else
/// goes to its handler.
pub open spec fn dispatch_spec(m: HttpMethod, p: Seq<char>) -> Dispatch {
    match route_spec(p) {
        None => Dispatch::NotFound,
        Some(e) => if method_ok(m, e) {
            Dispatch::Handle(e)
        } else {
            Dispatch::MethodNotAllowed
        },
    }
}

pub fn route(p: &str) -> (r: Option<Endpoint>)
    ensures
        r == route_spec(p@),
{
    if str_eq(p, "/perf/info") {
        Some(Endpoint::Info)
    } else if str_eq(p, "/perf/dashboard") {
        Some(Endpoint::Dashboard)
    } else if str_eq(p, "/perf/data") {
        Some(Endpoint::Data)
    } else if str_eq(p, "/perf/graph") {
        Some(Endpoint::Graph)
    } else if str_eq(p, "/perf/get") {
        Some(Endpoint::GetDays)
    } else if str_eq(p, "/perf/nll_dashboard") {
        Some(Endpoint::NllDashboard)
    } else if str_eq(p, "/perf/pr_commit") {
        Some(Endpoint::PrCommit)
    } else if str_eq(p, "/perf/date_commit") {
        Some(Endpoint::DateCommit)
    } else if str_eq(p, "/perf/onpush") {
        Some(Endpoint::OnPush)
    } else {
        None
    }
}

pub fn dispatch(m: HttpMethod, p: &str) -> (r: Dispatch)
    ensures
        r == dispatch_spec(m, p@),
{
    match route(p) {
        None => Dispatch::NotFound,
        Some(e) => {
            let ok = match e {
                Endpoint::Info => matches!(m, HttpMethod::Get),
                Endpoint::Dashboard => matches!(m, HttpMethod::Get),
                Endpoint::Data => matches!(m, HttpMethod::Post),
                Endpoint::Graph => matches!(m, HttpMethod::Post),
                Endpoint::GetDays => matches!(m, HttpMethod::Post),
                Endpoint::NllDashboard => matches!(m, HttpMethod::Post),
                Endpoint::PrCommit => matches!(m, HttpMethod::Get),
                Endpoint::DateCommit => matches!(m, HttpMethod::Get),
                Endpoint::OnPush => true,
            };
            if ok {
                Dispatch::Handle(e)
            } else {
                Dispatch::MethodNotAllowed
            }
        },
    }
}

/// The size guard: a POST body may be decoded only when its declared length
/// does not exceed the cap, before any body bytes are read.
pub fn body_allowed(declared_length: u64) -> (r: bool)
    ensures
        r <==> declared_length <= MAX_BODY_BYTES,
{
    declared_length <= MAX_BODY_BYTES
}

/// A static-file path is unsafe when it carries a relative step.
pub open spec fn path_unsafe(p: Seq<char>) -> bool {
    contains_sub(p, "./"@) || contains_sub(p, "../"@)
}

pub fn is_path_safe(p: &str) -> (r: bool)
    ensures
        r == !path_unsafe(p@),
{
    let a = contains_sub_exec(p, "./");
    let b = contains_sub_exec(p, "../");
    !(a || b)
}

/// Where a request path is served from on disk: under the static root, with
/// the empty and root paths mapped to the index page.
pub open spec fn fs_path_spec(p: Seq<char>) -> Seq<char> {
    "site/static"@ + (if p == ""@ || p == "/"@ {
        "/index.html"@
    } else {
        p
    })
}

pub fn fs_path(p: &str) -> (r: String)
    ensures
        r@ == fs_path_spec(p@),
{
    let base = String::from_str("site/static");
    if str_eq(p, "") || str_eq(p, "/") {
        base.concat("/index.html")
    } else {
        base.concat(p)
    }
}

/// Every character is a decimal digit.
pub open spec fn all_digits(s: Seq<char>) -> bool {
    forall|i: int| 0 <= i < s.len() ==> '0' <= #[trigger] s[i] <= '9'
}

/// The number the digit string writes.
pub open spec fn digits_value(s: Seq<char>) -> int
    decreases s.len(),
{
    if s.len() == 0 {
        0
    } else {
        digits_value(s.drop_last()) * 10 + (s.last() as int - '0' as int)
    }
}

proof fn lemma_digits_value_bound(s: Seq<char>)
    requires
        all_digits(s),
    ensures
        0 <= digits_value(s) < pow10(s.len() as nat),
    decreases s.len(),
{
    if s.len() > 0 {
        assert(all_digits(s.drop_last())) by {
            assert(forall|i: int| 0 <= i < s.len() - 1 ==> s.drop_last()[i] == s[i]);
        }
        lemma_digits_value_bound(s.drop_last());
        assert(digits_value(s) < pow10((s.len() - 1) as nat) * 10) by (nonlinear_arith)
            requires
                digits_value(s) == digits_value(s.drop_last()) * 10 + (s.last() as int
                    - '0' as int),
                0 <= digits_value(s.drop_last()) < pow10((s.len() - 1) as nat),
                0 <= s.last() as int - '0' as int <= 9,
        ;
        assert(pow10((s.len() - 1) as nat) * 10 == pow10(s.len() as nat));
    }
}

spec fn pow10(n: nat) -> int
    decreases n,
{
    if n == 0 {
        1
    } else {
        pow10((n - 1) as nat) * 10
    }
}

proof fn lemma_pow10_bound(n: int)
    requires
        0 <= n,
    ensures
        pow10(n as nat) >= 1,
    decreases n,
{
    if n > 0 {
        lemma_pow10_bound(n - 1);
    }
}

proof fn lemma_pow10_mono(a: nat, b: nat)
    requires
        a <= b,
    ensures
        pow10(a) <= pow10(b),
    decreases b,
{
    if a < b {
        lemma_pow10_mono(a, (b - 1) as nat);
        lemma_pow10_bound(b as int - 1);
    }
}

proof fn lemma_digits_value_nonneg_strict(s: Seq<char>)
    requires
        all_digits(s),
        s.len() <= 19,
    ensures
        0 <= digits_value(s) < 0x1_0000_0000_0000_0000,
{
    lemma_digits_value_bound(s);
    lemma_pow10_mono(s.len() as nat, 19);
    assert(pow10(19) == 10_000_000_000_000_000_000) by {
        reveal_with_fuel(pow10, 21);
    }
}

/// Parses a decimal number: the digits' value for a non-empty all-digit
/// string of at most nineteen characters (such a value always fits), nothing
/// otherwise.
pub fn parse_u64(s: &str) -> (r: Option<u64>)
    ensures
        ({
            if all_digits(s@) && 1 <= s@.len() <= 19 {
                r matches Some(n) && n == digits_value(s@)
            } else {
                r is None
            }
        }),
{
    let len = s.unicode_len();
    if len == 0 || len > 19 {
        return None;
    }
    let mut n: u64 = 0;
    let mut i: usize = 0;
    proof {
        assert(s@.subrange(0, 0) =~= Seq::<char>::empty());
    }
    while i < len
        invariant
            len == s@.len(),
            1 <= len <= 19,
            0 <= i <= len,
            all_digits(s@.subrange(0, i as int)),
            n == digits_value(s@.subrange(0, i as int)),
            n < 0x1_0000_0000_0000_0000,
        decreases len - i,
    {
        let c = s.get_char(i);
        if c < '0' || c > '9' {
            return None;
        }
        let d: u64 = (c as u32 as u64) - 48;
        proof {
            assert(s@.subrange(0, i + 1).drop_last() =~= s@.subrange(0, i as int));
            assert(s@.subrange(0, i + 1).last() == s@[i as int]);
            assert(all_digits(s@.subrange(0, i + 1)));
            lemma_digits_value_nonneg_strict(s@.subrange(0, i + 1));
            assert(d == s@[i as int] as int - '0' as int);
        }
        n = n * 10 + d;
        i = i + 1;
    }
    proof {
        assert(s@.subrange(0, s@.len() as int) =~= s@);
    }
    Some(n)
}

} // verus!
