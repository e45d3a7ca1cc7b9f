//! Fixed-point arithmetic for benchmark measurements.
//!
//! A measurement is carried as an `i64` count of micro-units (one unit is
//! `MICROS_PER_UNIT` micro-units).  Averages and displayed values are rounded
//! to one decimal place, i.e. to a multiple of `TENTH`, rounding halves away
//! from zero.

use vstd::prelude::*;

verus! {

use vstd::arithmetic::div_mod::{lemma_div_is_ordered, lemma_div_pos_is_pos, lemma_multiply_divide_lt};

/// Number of micro-units in one unit of a measurement.
pub const MICROS_PER_UNIT: i64 = 1_000_000;

/// Number of micro-units in one tenth of a unit (one decimal place).
pub const TENTH: i64 = 100_000;

/// Largest magnitude a measurement may have, in micro-units.
pub const AMOUNT_LIMIT: i64 = 1_000_000_000_000_000;

/// True of any measurement the library accepts.
pub open spec fn amount_in_range(v: i64) -> bool {
    -AMOUNT_LIMIT <= v <= AMOUNT_LIMIT
}

/// Quotient of `n / d` rounded to the nearest integer, halves away from zero.
pub open spec fn div_half_away(n: int, d: int) -> int
    recommends
        d > 0,
{
    if n >= 0 {
        (n + d / 2) / d
    } else {
        -((-n + d / 2) / d)
    }
}

/// `v` rounded to the nearest multiple of `TENTH`, halves away from zero.
pub open spec fn round_tenth_spec(v: int) -> int {
    (TENTH as int) * div_half_away(v, TENTH as int)
}

/// Sum of a sequence of measurements, as an unbounded integer.
pub open spec fn sum_of(s: Seq<i64>) -> int
    decreases s.len(),
{
    if s.len() == 0 {
        0
    } else {
        sum_of(s.drop_last()) + s.last()
    }
}

/// Mean of a non-empty sequence, rounded to one decimal place.
pub open spec fn average_spec(s: Seq<i64>) -> int
    recommends
        s.len() > 0,
{
    (TENTH as int) * div_half_away(sum_of(s), (TENTH as int) * s.len())
}

proof fn lemma_sum_bounded(s: Seq<i64>, b: int)
    requires
        forall|i: int| 0 <= i < s.len() ==> -b <= #[trigger] s[i] <= b,
        b >= 0,
    ensures
        -b * s.len() <= sum_of(s) <= b * s.len(),
    decreases s.len(),
{
    if s.len() > 0 {
        lemma_sum_bounded(s.drop_last(), b);
        assert(-b * s.len() == -b * (s.len() - 1) + -b) by (nonlinear_arith);
        assert(b * s.len() == b * (s.len() - 1) + b) by (nonlinear_arith);
    }
}

/// Rounds a measurement to one decimal place, halves away from zero.
pub fn round_to_tenth(v: i64) -> (r: i64)
    requires
        amount_in_range(v),
    ensures
        r == round_tenth_spec(v as int),
        amount_in_range(r),
        -AMOUNT_LIMIT <= r + TENTH,
        r - TENTH <= AMOUNT_LIMIT,
{
    if v >= 0 {
        ((v + 50_000) / 100_000) * 100_000
    } else {
        -((((-v) + 50_000) / 100_000) * 100_000)
    }
}

/// Mean of the measurements, rounded to one decimal place; `None` when there
/// is nothing to average.
pub fn average(v: &Vec<i64>) -> (r: Option<i64>)
    requires
        forall|i: int| 0 <= i < v@.len() ==> amount_in_range(#[trigger] v@[i]),
    ensures
        r is None <==> v@.len() == 0,
        r is Some ==> r->0 == average_spec(v@),
{
    if v.len() == 0 {
        return None;
    }
    let sum = sum_i128(v);
    let len = v.len();
    let d: i128 = (TENTH as i128) * (len as i128);
    proof {
        lemma_sum_bounded(v@, AMOUNT_LIMIT as int);
        assert((AMOUNT_LIMIT as int) * v@.len() + d / 2 < d * 10_000_000_001int) by (nonlinear_arith)
            requires
                d == (TENTH as int) * v@.len(),
                v@.len() >= 1,
        ;
        assert((AMOUNT_LIMIT as int) * v@.len() + d / 2
            < 0x8000_0000_0000_0000_0000_0000_0000_0000int) by (nonlinear_arith)
            requires
                d == (TENTH as int) * v@.len(),
                1 <= v@.len() <= 0x1_0000_0000_0000_0000int,
        ;
    }
    let q: i128 = div_half_away_i128(sum, d, 10_000_000_001);
    Some((q as i64) * TENTH)
}

/// Mean of the measurements without any rounding beyond the fixed-point grid;
/// `None` when there is nothing to average.
pub open spec fn mean_spec(s: Seq<i64>) -> int
    recommends
        s.len() > 0,
{
    div_half_away(sum_of(s), s.len() as int)
}

pub fn mean(v: &Vec<i64>) -> (r: Option<i64>)
    requires
        forall|i: int| 0 <= i < v@.len() ==> amount_in_range(#[trigger] v@[i]),
    ensures
        r is None <==> v@.len() == 0,
        r is Some ==> r->0 == mean_spec(v@) && amount_in_range(r->0),
{
    if v.len() == 0 {
        return None;
    }
    let sum = sum_i128(v);
    let len = v.len();
    proof {
        lemma_sum_bounded(v@, AMOUNT_LIMIT as int);
        assert((AMOUNT_LIMIT as int) * v@.len() + (v@.len() as int) / 2
            < (v@.len() as int) * ((AMOUNT_LIMIT + 1) as int)) by (nonlinear_arith)
            requires
                v@.len() >= 1,
        ;
        assert((AMOUNT_LIMIT as int) * v@.len() + (v@.len() as int) / 2
            < 0x8000_0000_0000_0000_0000_0000_0000_0000int) by (nonlinear_arith)
            requires
                1 <= v@.len() <= 0x1_0000_0000_0000_0000int,
        ;
    }
    let q: i128 = div_half_away_i128(sum, len as i128, (AMOUNT_LIMIT as i128) + 1);
    proof {
        lemma_mean_in_range(v@);
    }
    Some(q as i64)
}

proof fn lemma_mean_in_range(s: Seq<i64>)
    requires
        s.len() > 0,
        forall|i: int| 0 <= i < s.len() ==> amount_in_range(#[trigger] s[i]),
    ensures
        -AMOUNT_LIMIT <= mean_spec(s) <= AMOUNT_LIMIT,
{
    lemma_sum_bounded(s, AMOUNT_LIMIT as int);
    let n = sum_of(s);
    let len = s.len() as int;
    if n >= 0 {
        assert(n + len / 2 < len * ((AMOUNT_LIMIT + 1) as int)) by (nonlinear_arith)
            requires
                len >= 1,
                n <= (AMOUNT_LIMIT as int) * len,
        ;
        lemma_multiply_divide_lt(n + len / 2, len, (AMOUNT_LIMIT + 1) as int);
        lemma_div_pos_is_pos(n + len / 2, len);
    } else {
        assert(-n + len / 2 < len * ((AMOUNT_LIMIT + 1) as int)) by (nonlinear_arith)
            requires
                len >= 1,
                -n <= (AMOUNT_LIMIT as int) * len,
        ;
        lemma_multiply_divide_lt(-n + len / 2, len, (AMOUNT_LIMIT + 1) as int);
        lemma_div_pos_is_pos(-n + len / 2, len);
    }
}

fn sum_i128(v: &Vec<i64>) -> (s: i128)
    requires
        forall|i: int| 0 <= i < v@.len() ==> amount_in_range(#[trigger] v@[i]),
    ensures
        s == sum_of(v@),
{
    let mut s: i128 = 0;
    let mut i: usize = 0;
    proof {
        assert(v@.subrange(0, 0) =~= Seq::<i64>::empty());
    }
    while i < v.len()
        invariant
            0 <= i <= v@.len(),
            forall|k: int| 0 <= k < v@.len() ==> amount_in_range(#[trigger] v@[k]),
            s == sum_of(v@.subrange(0, i as int)),
        decreases v@.len() - i,
    {
        proof {
            lemma_sum_bounded(v@.subrange(0, i as int), AMOUNT_LIMIT as int);
            assert(v@.subrange(0, i + 1).drop_last() =~= v@.subrange(0, i as int));
            assert((AMOUNT_LIMIT as int) * (i as int) + AMOUNT_LIMIT
                < 0x8000_0000_0000_0000_0000_0000_0000_0000int) by (nonlinear_arith)
                requires
                    0 <= i,
                    i < 0x1_0000_0000_0000_0000int,
            ;
        }
        s = s + (v[i] as i128);
        i = i + 1;
    }
    proof {
        assert(v@.subrange(0, v@.len() as int) =~= v@);
    }
    s
}

/// `div_half_away(n, d)` on machine integers; `bound` is a caller-supplied
/// strict bound on the magnitude of the quotient, so the result is exact.
fn div_half_away_i128(n: i128, d: i128, bound: i128) -> (q: i128)
    requires
        0 < d,
        d / 2 + if n >= 0 {
            n as int
        } else {
            -(n as int)
        } < d * bound,
        d / 2 + if n >= 0 {
            n as int
        } else {
            -(n as int)
        } < 0x8000_0000_0000_0000_0000_0000_0000_0000int,
        0 < bound <= 0x7fff_ffff_ffff_ffff_ffff_ffff_ffff_ffffi128,
        n > -0x8000_0000_0000_0000_0000_0000_0000_0000i128,
    ensures
        q == div_half_away(n as int, d as int),
        -bound < q < bound,
{
    proof {
        let nn: int = if n >= 0 {
            n as int
        } else {
            -(n as int)
        };
        lemma_multiply_divide_lt(nn + d / 2, d as int, bound as int);
        lemma_div_pos_is_pos(nn + d / 2, d as int);
    }
    if n >= 0 {
        (n + d / 2) / d
    } else {
        -((-n + d / 2) / d)
    }
}

/// Clamp an unbounded integer into the `i64` range.
pub open spec fn clamp_i64(x: int) -> int {
    if x > i64::MAX as int {
        i64::MAX as int
    } else if x < i64::MIN as int {
        i64::MIN as int
    } else {
        x
    }
}

/// Relative change from `first` to `cur`, as a percentage in micro-units
/// (`pct_spec(f, c) == 100_000_000` means the value grew by 100%).  A series
/// whose first value is not positive yields no meaningful percentage and maps
/// to zero.
pub open spec fn pct_spec(first: int, cur: int) -> int {
    if first > 0 {
        div_half_away((cur - first) * 100_000_000, first)
    } else {
        0
    }
}

/// Percent change from `first` to `cur`, clamped into the `i64` range.
pub fn percent_change(first: i64, cur: i64) -> (r: i64)
    requires
        amount_in_range(first),
        amount_in_range(cur),
    ensures
        r == clamp_i64(pct_spec(first as int, cur as int)),
{
    if first <= 0 {
        return 0;
    }
    let n: i128 = ((cur as i128) - (first as i128)) * 100_000_000;
    proof {
        let nn: int = if n >= 0 {
            n as int
        } else {
            -(n as int)
        };
        assert((first as int) / 2 + nn < (first as int) * 0x4000_0000_0000_0000_0000_0000_0000_0000int)
            by (nonlinear_arith)
            requires
                0 < first <= AMOUNT_LIMIT,
                nn <= 0x1_0000_0000_0000_0000_0000_0000i128 as int,
        ;
    }
    let q: i128 = div_half_away_i128(n, first as i128, 0x4000_0000_0000_0000_0000_0000_0000_0000);
    clamp_to_i64(q)
}

/// `value / base` as a ratio in micro-units (`1_000_000` means equal), clamped
/// into the `i64` range.  A base that is not positive yields zero.
pub open spec fn ratio_spec(value: int, base: int) -> int {
    if base > 0 {
        div_half_away(value * (MICROS_PER_UNIT as int), base)
    } else {
        0
    }
}

pub fn ratio_of(value: i64, base: i64) -> (r: i64)
    requires
        amount_in_range(value),
        amount_in_range(base),
    ensures
        r == clamp_i64(ratio_spec(value as int, base as int)),
{
    if base <= 0 {
        return 0;
    }
    let n: i128 = (value as i128) * (MICROS_PER_UNIT as i128);
    proof {
        let nn: int = if n >= 0 {
            n as int
        } else {
            -(n as int)
        };
        assert((base as int) / 2 + nn < (base as int) * 0x4000_0000_0000_0000_0000_0000_0000_0000int)
            by (nonlinear_arith)
            requires
                0 < base <= AMOUNT_LIMIT,
                nn <= 0x10_0000_0000_0000_0000_0000i128 as int,
        ;
    }
    let q: i128 = div_half_away_i128(n, base as i128, 0x4000_0000_0000_0000_0000_0000_0000_0000);
    clamp_to_i64(q)
}

/// Clamp an unbounded integer into the accepted measurement range.
pub open spec fn clamp_amount(x: int) -> int {
    if x > AMOUNT_LIMIT as int {
        AMOUNT_LIMIT as int
    } else if x < -AMOUNT_LIMIT as int {
        -AMOUNT_LIMIT as int
    } else {
        x
    }
}

/// `ratio_of`, clamped into the accepted measurement range.
pub fn ratio_amount(value: i64, base: i64) -> (r: i64)
    requires
        amount_in_range(value),
        amount_in_range(base),
    ensures
        r == clamp_amount(ratio_spec(value as int, base as int)),
        amount_in_range(r),
{
    let q = ratio_of(value, base);
    if q > AMOUNT_LIMIT {
        AMOUNT_LIMIT
    } else if q < -AMOUNT_LIMIT {
        -AMOUNT_LIMIT
    } else {
        q
    }
}

fn clamp_to_i64(x: i128) -> (r: i64)
    ensures
        r == clamp_i64(x as int),
{
    if x > i64::MAX as i128 {
        i64::MAX
    } else if x < i64::MIN as i128 {
        i64::MIN
    } else {
        x as i64
    }
}

} // verus!
