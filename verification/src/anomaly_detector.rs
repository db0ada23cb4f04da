//! Quantile estimation and interquartile anomaly fencing.
//!
//! The estimator never reorders its input: it reads the element at the
//! computed rank of the sequence as given. The pipeline deliberately hands
//! the fence the daily averages in chronological order, so the quartiles
//! are estimated over date order rather than magnitude order; a caller
//! that wants magnitude-ranked quartiles sorts by value first.

use vstd::prelude::*;

use crate::data_processor::DailyAggregate;
use crate::errors::AppError;
use crate::ratio::Ratio;

verus! {

/// The zero-based nearest rank of the quantile `q_num / q_den` in a
/// sequence of `n` elements: `floor(q * (n - 1))`.
pub open spec fn quantile_index(q_num: int, q_den: int, n: int) -> int {
    q_num * (n - 1) / q_den
}

/// Nearest-rank quantile of a sequence, taken in the order given: the
/// element at index `floor(q * (n - 1))`. The caller owns any ordering of
/// the input; an empty input is an explicit error, never an out-of-range
/// access.
pub fn percentile(values: &Vec<Ratio>, q_num: u64, q_den: u64) -> (r: Result<Ratio, AppError>)
    requires
        0 < q_den,
        q_num <= q_den,
    ensures
        values@.len() == 0 ==> (r matches Err(e) && e is DataProcessingError),
        values@.len() > 0 ==> r == Ok::<Ratio, AppError>(
            values@[quantile_index(q_num as int, q_den as int, values@.len() as int)],
        ),
{
    if values.len() == 0 {
        return Err(
            AppError::DataProcessingError("cannot take a percentile of an empty sequence".to_string()),
        );
    }
    let n = values.len();
    proof {
        assert((q_num as int) * ((n - 1) as int) < 0x100000000000000000000000000000000int)
            by (nonlinear_arith)
            requires
                0 <= (q_num as int),
                (q_num as int) < 0x10000000000000000int,
                0 <= n - 1,
                n - 1 < 0x10000000000000000int,
        ;
    }
    let prod: u128 = (q_num as u128) * ((n - 1) as u128);
    let idx_wide: u128 = prod / (q_den as u128);
    proof {
        assert((q_num as int) * ((n - 1) as int) <= (q_den as int) * ((n - 1) as int))
            by (nonlinear_arith)
            requires
                q_num as int <= q_den as int,
                n >= 1,
        ;
        assert(0 <= (q_num as int) * ((n - 1) as int)) by (nonlinear_arith)
            requires
                q_num >= 0,
                n >= 1,
        ;
        vstd::arithmetic::div_mod::lemma_div_is_ordered(
            (q_num as int) * ((n - 1) as int),
            (q_den as int) * ((n - 1) as int),
            q_den as int,
        );
        vstd::arithmetic::div_mod::lemma_div_multiples_vanish((n - 1) as int, q_den as int);
    }
    let idx: usize = idx_wide as usize;
    Ok(values[idx])
}

// ---------------------------------------------------------------------------
// Interquartile fence
// ---------------------------------------------------------------------------

/// The common positive denominator of the fence bounds: `q1.den * q3.den *
/// k.den`.
pub open spec fn fence_den(q1: Ratio, q3: Ratio, k: Ratio) -> int {
    q1.den * q3.den * k.den
}

/// The numerator of `q3 - q1` over the denominator `q1.den * q3.den`.
pub open spec fn iqr_num(q1: Ratio, q3: Ratio) -> int {
    q3.num * q1.den - q1.num * q3.den
}

/// The numerator of the lower fence `q1 - k * (q3 - q1)` over
/// `fence_den(q1, q3, k)`.
pub open spec fn lower_num(q1: Ratio, q3: Ratio, k: Ratio) -> int {
    q1.num * q3.den * k.den - k.num * iqr_num(q1, q3)
}

/// The numerator of the upper fence `q3 + k * (q3 - q1)` over
/// `fence_den(q1, q3, k)`.
pub open spec fn upper_num(q1: Ratio, q3: Ratio, k: Ratio) -> int {
    q3.num * q1.den * k.den + k.num * iqr_num(q1, q3)
}

/// Whether the value `v` lies outside the interquartile fence drawn from
/// the quartiles `q1` and `q3` with multiplier `k`: strictly below the
/// lower bound or strictly above the upper bound. All comparisons are by
/// cross-multiplication over positive denominators.
pub open spec fn spec_is_anomalous(v: Ratio, q1: Ratio, q3: Ratio, k: Ratio) -> bool {
    v.num * fence_den(q1, q3, k) < lower_num(q1, q3, k) * v.den || v.num * fence_den(q1, q3, k)
        > upper_num(q1, q3, k) * v.den
}

/// A daily average: a sum of at most a million 32-bit sample values over
/// their count. These bounds keep every fence product inside 128 bits.
pub open spec fn bounded_avg(r: Ratio) -> bool {
    &&& 1 <= r.den <= 0x100000
    &&& -(r.den * 0x8000_0000) <= r.num
    &&& r.num <= r.den * 0x8000_0000
}

/// A fence multiplier whose numerator and denominator fit 32 bits, such
/// as 3/2. These bounds keep every fence product inside 128 bits.
pub open spec fn bounded_multiplier(k: Ratio) -> bool {
    &&& 1 <= k.den <= 0x8000_0000
    &&& -0x8000_0000 <= k.num <= 0x8000_0000
}

proof fn lemma_abs_mul(x: int, y: int, bx: int, by: int)
    requires
        -bx <= x <= bx,
        -by <= y <= by,
        0 <= bx,
        0 <= by,
    ensures
        -(bx * by) <= x * y <= bx * by,
{
    assert(-(bx * by) <= x * y <= bx * by) by (nonlinear_arith)
        requires
            -bx <= x <= bx,
            -by <= y <= by,
            0 <= bx,
            0 <= by,
    ;
}

/// Decides whether `v` lies outside the fence drawn from `q1`, `q3` and
/// `k`, by exact 128-bit cross-multiplication.
pub fn is_anomalous(v: &Ratio, q1: &Ratio, q3: &Ratio, k: &Ratio) -> (r: bool)
    requires
        bounded_avg(*v),
        bounded_avg(*q1),
        bounded_avg(*q3),
        bounded_multiplier(*k),
    ensures
        r == spec_is_anomalous(*v, *q1, *q3, *k),
{
    proof {
        assert(-0x8000000000000 <= q1.num <= 0x8000000000000) by (nonlinear_arith)
            requires
                1 <= q1.den <= 0x100000,
                -(q1.den * 0x8000_0000) <= q1.num <= q1.den * 0x8000_0000,
        ;
        assert(-0x8000000000000 <= q3.num <= 0x8000000000000) by (nonlinear_arith)
            requires
                1 <= q3.den <= 0x100000,
                -(q3.den * 0x8000_0000) <= q3.num <= q3.den * 0x8000_0000,
        ;
        assert(-0x8000000000000 <= v.num <= 0x8000000000000) by (nonlinear_arith)
            requires
                1 <= v.den <= 0x100000,
                -(v.den * 0x8000_0000) <= v.num <= v.den * 0x8000_0000,
        ;
        lemma_abs_mul(q1.num as int, q3.den as int, 0x8000000000000, 0x100000);
        lemma_abs_mul(q3.num as int, q1.den as int, 0x8000000000000, 0x100000);
    }
    let a: i128 = q1.num * q3.den;
    let b: i128 = q3.num * q1.den;
    let iqr: i128 = b - a;
    proof {
        lemma_abs_mul(a as int, k.den as int, 0x800000000000000000, 0x80000000);
        lemma_abs_mul(b as int, k.den as int, 0x800000000000000000, 0x80000000);
        lemma_abs_mul(k.num as int, iqr as int, 0x80000000, 0x1000000000000000000);
    }
    let ak: i128 = a * k.den;
    let bk: i128 = b * k.den;
    let kiqr: i128 = k.num * iqr;
    let lower: i128 = ak - kiqr;
    let upper: i128 = bk + kiqr;
    proof {
        lemma_abs_mul(q1.den as int, q3.den as int, 0x100000, 0x100000);
    }
    let den: i128 = q1.den * q3.den;
    proof {
        lemma_abs_mul(den as int, k.den as int, 0x10000000000, 0x80000000);
    }
    let den_k: i128 = den * k.den;
    proof {
        lemma_abs_mul(v.num as int, den_k as int, 0x8000000000000, 0x800000000000000000);
        lemma_abs_mul(lower as int, v.den as int, 0x100000000000000000000000000, 0x100000);
        lemma_abs_mul(upper as int, v.den as int, 0x100000000000000000000000000, 0x100000);
    }
    let left: i128 = v.num * den_k;
    let low_side: i128 = lower * v.den;
    let high_side: i128 = upper * v.den;
    left < low_side || left > high_side
}

// ---------------------------------------------------------------------------
// Anomaly detection over daily aggregates
// ---------------------------------------------------------------------------

/// The first quartile of the averages of a non-empty aggregate sequence,
/// taken in the order given.
pub open spec fn spec_q1(s: Seq<DailyAggregate>) -> Ratio {
    s[quantile_index(1, 4, s.len() as int)].avg()
}

/// The third quartile of the averages of a non-empty aggregate sequence,
/// taken in the order given.
pub open spec fn spec_q3(s: Seq<DailyAggregate>) -> Ratio {
    s[quantile_index(3, 4, s.len() as int)].avg()
}

/// The subsequence of aggregates whose average lies outside the fence
/// drawn from the fixed quartiles `q1` and `q3` with multiplier `k`,
/// keeping input order.
pub open spec fn anomalies_rec(
    s: Seq<DailyAggregate>,
    q1: Ratio,
    q3: Ratio,
    k: Ratio,
) -> Seq<DailyAggregate>
    decreases s.len(),
{
    if s.len() == 0 {
        Seq::empty()
    } else if spec_is_anomalous(s.last().avg(), q1, q3, k) {
        anomalies_rec(s.drop_last(), q1, q3, k).push(s.last())
    } else {
        anomalies_rec(s.drop_last(), q1, q3, k)
    }
}

/// The anomalies of a non-empty aggregate sequence under multiplier `k`:
/// the entries whose average lies outside the interquartile fence drawn
/// from the sequence's own quartiles, in input order.
pub open spec fn spec_anomalies(s: Seq<DailyAggregate>, k: Ratio) -> Seq<DailyAggregate> {
    anomalies_rec(s, spec_q1(s), spec_q3(s), k)
}

/// The bounds under which the fence arithmetic is exact: every aggregate
/// is well formed and covers at most a million samples.
pub open spec fn fence_input_ok(s: Seq<DailyAggregate>) -> bool {
    forall|i: int|
        0 <= i < s.len() ==> (#[trigger] s[i]).wf() && s[i].sample_count <= 0x100000
}

/// Flags the aggregates whose average lies outside the interquartile
/// fence. The quartiles are estimated over the averages in the order the
/// sequence is given: a caller that wants them over a particular order
/// sorts first. The input is never mutated; the result keeps input order.
/// An empty input is an explicit error.
pub fn detect_anomalies(data: &Vec<DailyAggregate>, iqr_multiplier: Ratio) -> (r: Result<
    Vec<DailyAggregate>,
    AppError,
>)
    requires
        fence_input_ok(data@),
        bounded_multiplier(iqr_multiplier),
    ensures
        data@.len() == 0 ==> (r matches Err(e) && e is DataProcessingError),
        data@.len() > 0 ==> (r matches Ok(v) && v@ == spec_anomalies(data@, iqr_multiplier)),
{
    let mut values: Vec<Ratio> = Vec::new();
    let mut i: usize = 0;
    while i < data.len()
        invariant
            fence_input_ok(data@),
            i <= data@.len(),
            values@.len() == i,
            forall|j: int| 0 <= j < i ==> #[trigger] values@[j] == data@[j].avg(),
            forall|j: int| 0 <= j < i ==> bounded_avg(#[trigger] values@[j]),
        decreases data@.len() - i,
    {
        let entry = &data[i];
        let v = entry.avg_ratio();
        values.push(v);
        i += 1;
    }
    let q1 = match percentile(&values, 1, 4) {
        Ok(q) => q,
        Err(e) => {
            return Err(e);
        },
    };
    let q3 = match percentile(&values, 3, 4) {
        Ok(q) => q,
        Err(e) => {
            proof {
                assert(false);
            }
            return Err(e);
        },
    };
    proof {
        assert(q1 == spec_q1(data@));
        assert(q3 == spec_q3(data@));
    }
    let mut out: Vec<DailyAggregate> = Vec::new();
    let mut j: usize = 0;
    while j < data.len()
        invariant
            fence_input_ok(data@),
            bounded_multiplier(iqr_multiplier),
            j <= data@.len(),
            data@.len() > 0,
            q1 == spec_q1(data@),
            q3 == spec_q3(data@),
            bounded_avg(q1),
            bounded_avg(q3),
            out@ == anomalies_rec(data@.take(j as int), q1, q3, iqr_multiplier),
        decreases data@.len() - j,
    {
        proof {
            assert(data@.take(j + 1 as int).drop_last() =~= data@.take(j as int));
            assert(data@.take(j + 1 as int).last() == data@[j as int]);
        }
        let entry = data[j];
        let v = entry.avg_ratio();
        if is_anomalous(&v, &q1, &q3, &iqr_multiplier) {
            out.push(entry);
        }
        j += 1;
    }
    proof {
        assert(data@.take(data@.len() as int) =~= data@);
    }
    Ok(out)
}

/// The anomaly fence is deterministic: two runs over the same aggregate
/// sequence with the same multiplier flag the same entries, in the same
/// order.
pub proof fn lemma_detect_anomalies_deterministic(
    s1: Seq<DailyAggregate>,
    s2: Seq<DailyAggregate>,
    k1: Ratio,
    k2: Ratio,
)
    requires
        s1 == s2,
        k1 == k2,
    ensures
        spec_anomalies(s1, k1) == spec_anomalies(s2, k2),
{
}

} // verus!

