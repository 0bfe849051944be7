//! The Bézier curve core: exact evaluation of the Bernstein-form curve value
//! at one rational parameter, and uniform sampling of the curve over the
//! parameter interval [0, 1].
//!
//! The parameter is the rational number `t = k / m` (`m >= 1`). With control
//! points `p_0, ..., p_d` the curve value at `t` is
//! `sum_i C(d, i) * (1 - t)^(d - i) * t^i * p_i`; multiplying through by
//! `m^d` clears every denominator, so the value is held exactly as the
//! integer numerator over the denominator `m^d`.

use vstd::prelude::*;
use vstd::arithmetic::power::{
    pow, lemma_pow0, lemma_pow1, lemma0_pow, lemma_pow_adds, lemma_pow_increases,
    lemma_pow_positive,
};
use vstd::arithmetic::power2::{
    pow2, lemma_pow2_pos, lemma_pow2_strictly_increases, lemma2_to64_rest,
};
use vstd::arithmetic::mul::{lemma_mul_inequality, lemma_mul_nonnegative};
use vstd::math::abs;
use crate::arith::{
    pow_i128, pow2_u128, lemma_pow_abs, lemma_pow_le_base, lemma_pow_nonneg, lemma_abs_mul_le,
};
use crate::combinatorics::{binom, binomial_row, lemma_binom_all, lemma_binom_le_pow2};

verus! {

/// The one error kind the curve core produces: an input that violates the
/// call contract. No other failure is possible; evaluation is pure.
#[derive(Clone, Copy, Debug, PartialEq, Eq, Structural)]
pub enum InvalidInput {
    /// The evaluator was handed an empty control-point sequence.
    NoControlPoints,
    /// The sampler needs at least two control points.
    TooFewControlPoints,
    /// The sampler needs at least two samples, so that the parameter step
    /// `1 / (sample_count - 1)` is defined.
    SampleCountTooSmall,
}

impl InvalidInput {
    /// A human-readable statement of the violated constraint.
    pub fn message(&self) -> (s: &'static str)
        ensures
            self is NoControlPoints ==> s@ == "control points must not be empty"@,
            self is TooFewControlPoints ==> s@ == "at least two control points are required"@,
            self is SampleCountTooSmall ==> s@ == "sample count must be at least 2"@,
    {
        match self {
            InvalidInput::NoControlPoints => "control points must not be empty",
            InvalidInput::TooFewControlPoints => "at least two control points are required",
            InvalidInput::SampleCountTooSmall => "sample count must be at least 2",
        }
    }
}

/// The control points as mathematical integers.
pub open spec fn as_ints(s: Seq<i64>) -> Seq<int> {
    s.map_values(|x: i64| x as int)
}

/// The largest absolute value among the control points (zero when there are
/// none).
pub open spec fn max_abs(s: Seq<int>) -> int
    decreases s.len(),
{
    if s.len() == 0 {
        0
    } else {
        vstd::math::max(abs(s[0]) as int, max_abs(s.drop_first()))
    }
}

pub proof fn lemma_max_abs_nonneg(s: Seq<int>)
    ensures
        max_abs(s) >= 0,
    decreases s.len(),
{
    if s.len() > 0 {
        lemma_max_abs_nonneg(s.drop_first());
    }
}

pub proof fn lemma_max_abs_bound(s: Seq<int>, i: int)
    requires
        0 <= i < s.len(),
    ensures
        abs(s[i]) <= max_abs(s),
    decreases s.len(),
{
    if i > 0 {
        lemma_max_abs_bound(s.drop_first(), i - 1);
        assert(s.drop_first()[i - 1] == s[i]);
    } else {
        lemma_max_abs_nonneg(s.drop_first());
    }
}

/// One Bernstein basis term of degree `d`, scaled by `m^d`: the coefficient
/// that multiplies control point `i` when the curve is evaluated at `k / m`.
pub open spec fn bernstein_term(d: nat, i: nat, k: int, m: int) -> int {
    binom(d, i) * pow(m - k, (d - i) as nat) * pow(k, i)
}

/// The sum of the first `n` Bernstein-weighted control points, scaled by
/// `m^d` where `d` is the curve degree `points.len() - 1`.
pub open spec fn bernstein_partial(points: Seq<int>, k: int, m: int, n: nat) -> int
    decreases n,
{
    if n == 0 {
        0
    } else {
        bernstein_partial(points, k, m, (n - 1) as nat) + bernstein_term(
            (points.len() - 1) as nat,
            (n - 1) as nat,
            k,
            m,
        ) * points[n - 1]
    }
}

/// The exact numerator of the curve value at parameter `k / m`: the curve
/// value multiplied by `m^d`, where `d == points.len() - 1`.
pub open spec fn bezier_num(points: Seq<int>, k: int, m: int) -> int {
    bernstein_partial(points, k, m, points.len())
}

/// The largest absolute value that a power base takes during evaluation at
/// parameter `k / m`: evaluation raises both `m - k` and `k` to powers.
pub open spec fn tmax(k: int, m: int) -> int {
    vstd::math::max(abs(m - k) as int, abs(k) as int)
}

/// The largest magnitude a single scaled Bernstein coefficient
/// `C(d, i) * (m - k)^(d - i) * k^i` can reach when both bases are bounded
/// by `tb`: the coefficient is at most `2^d` and the power product at most
/// `tb^d`.
pub open spec fn term_cap(points: Seq<int>, tb: int) -> int {
    let d = (points.len() - 1) as nat;
    pow2(d) * pow(tb, d)
}

/// The worst-case magnitude of the arithmetic that evaluation at a parameter
/// with base bound `tb` performs: every intermediate value stays below it.
pub open spec fn fits_bound(points: Seq<int>, tb: int) -> int {
    points.len() * term_cap(points, tb) * (max_abs(points) + 1)
}

/// The machine limit under which evaluation at `k / m` is exact in `i128`.
pub open spec fn eval_fits(points: Seq<int>, k: int, m: int) -> bool {
    fits_bound(points, tmax(k, m)) <= i128::MAX
}

/// The machine limit under which a whole sampling run with denominator `m`
/// is exact in `i128`: it covers every parameter `k / m` with `0 <= k <= m`.
pub open spec fn sample_fits(points: Seq<int>, m: int) -> bool {
    fits_bound(points, m) <= i128::MAX
}

/// A curve starts at its first control point: at the parameter `0 / m` the
/// scaled value `bezier_num` is exactly the first control point times `m^d`,
/// that is, the curve value is exactly `points[0]`.
pub proof fn lemma_curve_starts_at_first_point(points: Seq<int>, m: int)
    requires
        points.len() >= 1,
    ensures
        bezier_num(points, 0, m) == pow(m, (points.len() - 1) as nat) * points[0],
{
    lemma_partial_at_zero(points, m, points.len());
}

proof fn lemma_partial_at_zero(points: Seq<int>, m: int, n: nat)
    requires
        1 <= n <= points.len(),
    ensures
        bernstein_partial(points, 0, m, n) == pow(m, (points.len() - 1) as nat) * points[0],
    decreases n,
{
    broadcast use vstd::arithmetic::mul::group_mul_basics, vstd::arithmetic::mul::lemma_mul_is_commutative;

    let d = (points.len() - 1) as nat;
    if n == 1 {
        lemma_pow0(0);
        assert(binom(d, 0) == 1);
        assert(bernstein_term(d, 0, 0, m) == pow(m, d));
        assert(bernstein_partial(points, 0, m, 1) == bernstein_partial(points, 0, m, 0)
            + bernstein_term(d, 0, 0, m) * points[0]);
    } else {
        lemma_partial_at_zero(points, m, (n - 1) as nat);
        lemma0_pow((n - 1) as nat);
        assert(bernstein_term(d, (n - 1) as nat, 0, m) == 0);
    }
}

/// A curve ends at its last control point: at the parameter `m / m == 1` the
/// scaled value `bezier_num` is exactly the last control point times `m^d`.
pub proof fn lemma_curve_ends_at_last_point(points: Seq<int>, m: int)
    requires
        points.len() >= 1,
    ensures
        bezier_num(points, m, m) == pow(m, (points.len() - 1) as nat) * points[points.len() - 1],
{
    broadcast use vstd::arithmetic::mul::group_mul_basics, vstd::arithmetic::mul::lemma_mul_is_commutative;

    let d = (points.len() - 1) as nat;
    lemma_partial_vanishes_at_end(points, m, d);
    lemma_binom_all(d);
    lemma_pow0(0);
    assert(bernstein_term(d, d, m, m) == pow(m, d));
    assert(bezier_num(points, m, m) == bernstein_partial(points, m, m, d)
        + bernstein_term(d, d, m, m) * points[points.len() - 1]);
}

proof fn lemma_partial_vanishes_at_end(points: Seq<int>, m: int, n: nat)
    requires
        points.len() >= 1,
        n <= points.len() - 1,
    ensures
        bernstein_partial(points, m, m, n) == 0,
    decreases n,
{
    broadcast use vstd::arithmetic::mul::group_mul_basics, vstd::arithmetic::mul::lemma_mul_is_commutative;

    let d = (points.len() - 1) as nat;
    if n > 0 {
        lemma_partial_vanishes_at_end(points, m, (n - 1) as nat);
        lemma0_pow((d - (n - 1)) as nat);
        assert(bernstein_term(d, (n - 1) as nat, m, m) == 0);
    }
}

/// The linear case: a curve on exactly two control points `p0, p1` is the
/// straight interpolation `p0 * (1 - t) + p1 * t`; scaled by `m`, its value
/// at `k / m` is exactly `p0 * (m - k) + p1 * k`.
pub proof fn lemma_linear_case(p0: int, p1: int, k: int, m: int)
    ensures
        bezier_num(seq![p0, p1], k, m) == p0 * (m - k) + p1 * k,
{
    broadcast use vstd::arithmetic::mul::group_mul_basics, vstd::arithmetic::mul::lemma_mul_is_commutative;

    let s = seq![p0, p1];
    assert(s.len() == 2);
    assert(s[0] == p0);
    assert(s[1] == p1);
    lemma_pow0(m - k);
    lemma_pow0(k);
    lemma_pow1(m - k);
    lemma_pow1(k);
    assert(binom(0, 0) == 1);
    assert(binom(0, 1) == 0);
    assert(binom(1, 0) == 1);
    assert(binom(1, 1) == 1);
    assert(bernstein_term(1, 0, k, m) == m - k);
    assert(bernstein_term(1, 1, k, m) == k);
    assert(bernstein_partial(s, k, m, 1) == bernstein_partial(s, k, m, 0)
        + bernstein_term(1, 0, k, m) * p0);
    assert(bernstein_partial(s, k, m, 2) == bernstein_partial(s, k, m, 1)
        + bernstein_term(1, 1, k, m) * p1);
}

/// Both bases that evaluation at `k / m` raises to powers lie within
/// `tmax(k, m)`, and that bound is at least one whenever `m >= 1`.
proof fn lemma_tmax_bounds(k: int, m: int)
    requires
        m >= 1,
    ensures
        tmax(k, m) >= 1,
        abs(m - k) <= tmax(k, m),
        abs(k) <= tmax(k, m),
{
    if k < 1 {
        assert(m - k >= 1);
    }
}

/// Unpacks `fits_bound(points, tb) <= i128::MAX` into the bounds that the
/// evaluation loop needs for each intermediate product.
proof fn lemma_fits_parts(points: Seq<int>, tb: int)
    requires
        points.len() >= 1,
        tb >= 1,
        fits_bound(points, tb) <= i128::MAX,
    ensures
        max_abs(points) >= 0,
        1 <= term_cap(points, tb) <= i128::MAX,
        points.len() * (term_cap(points, tb) * max_abs(points)) + term_cap(points, tb)
            <= i128::MAX,
        forall|e: nat|
            e <= points.len() - 1 ==> #[trigger] pow(tb, e) <= term_cap(points, tb),
{
    let d = (points.len() - 1) as nat;
    let len = points.len() as int;
    let pm = max_abs(points);
    let c2 = pow2(d) as int;
    let cp = pow(tb, d);
    let cap = term_cap(points, tb);
    lemma_max_abs_nonneg(points);
    lemma_pow2_pos(d);
    lemma_pow_positive(tb, d);
    assert(cap == c2 * cp);
    assert(cap >= 1) by (nonlinear_arith)
        requires
            c2 >= 1,
            cp >= 1,
            cap == c2 * cp,
    ;
    assert(len * (cap * pm) + cap <= len * cap * (pm + 1)) by (nonlinear_arith)
        requires
            len >= 1,
            cap >= 1,
            pm >= 0,
    ;
    assert(cap <= len * cap * (pm + 1)) by (nonlinear_arith)
        requires
            len >= 1,
            cap >= 1,
            pm >= 0,
    ;
    assert forall|e: nat| e <= points.len() - 1 implies #[trigger] pow(tb, e) <= cap by {
        lemma_pow_increases(tb as nat, e, d);
        assert(pow(tb, e) <= cp);
        assert(cp <= cap) by (nonlinear_arith)
            requires
                c2 >= 1,
                cp >= 0,
                cap == c2 * cp,
        ;
    }
}

/// Head-room for a whole sampling run gives head-room for each of its
/// parameters: every `k / m` with `0 <= k <= m` fits.
pub proof fn lemma_sample_fits_eval(points: Seq<int>, k: int, m: int)
    requires
        points.len() >= 1,
        m >= 1,
        0 <= k <= m,
        sample_fits(points, m),
    ensures
        eval_fits(points, k, m),
{
    let d = (points.len() - 1) as nat;
    let len = points.len() as int;
    let tb = tmax(k, m);
    let pm = max_abs(points);
    let c2 = pow2(d) as int;
    lemma_tmax_bounds(k, m);
    assert(tb <= m);
    lemma_max_abs_nonneg(points);
    lemma_pow2_pos(d);
    lemma_pow_le_base(tb, m, d);
    lemma_pow_nonneg(tb, d);
    assert(len * (c2 * pow(tb, d)) * (pm + 1) <= len * (c2 * pow(m, d)) * (pm + 1))
        by (nonlinear_arith)
        requires
            len >= 1,
            c2 >= 1,
            pm >= 0,
            0 <= pow(tb, d) <= pow(m, d),
    ;
}

/// The scaled curve value at `k / m`, by direct Bernstein summation: binomial
/// coefficients from Pascal's triangle, exact integer powers, and an exact
/// accumulated sum. `eval_fits` guarantees that no product here overflows.
#[verifier::loop_isolation(false)]
fn bezier_num_exec(points: &Vec<i64>, k: i128, m: u64) -> (r: i128)
    requires
        1 <= points@.len() <= 64,
        m >= 1,
        eval_fits(as_ints(points@), k as int, m as int),
    ensures
        r == bezier_num(as_ints(points@), k as int, m as int),
{
    let ghost pts = as_ints(points@);
    let ghost tb = tmax(k as int, m as int);
    let ghost pm = max_abs(pts);
    let ghost cap = term_cap(pts, tb);
    let size = points.len();
    let d = size - 1;
    let ghost dd = d as nat;
    proof {
        lemma_tmax_bounds(k as int, m as int);
        lemma_fits_parts(pts, tb);
    }
    let row = binomial_row(d);
    if size == 1 {
        proof {
            broadcast use vstd::arithmetic::mul::group_mul_basics;

            lemma_pow0(m - k as int);
            lemma_pow0(k as int);
            assert(binom(0, 0) == 1);
            assert(bernstein_term(0, 0, k as int, m as int) == 1);
            assert(bezier_num(pts, k as int, m as int) == bernstein_partial(pts, k as int, m as int, 0)
                + bernstein_term(0, 0, k as int, m as int) * pts[0]);
        }
        return points[0] as i128;
    }
    proof {
        // `m - k` stays within `i128`: its magnitude is within `tb`, and
        // `tb <= pow(tb, d) <= cap` once the degree is at least one.
        lemma_pow1(tb);
        lemma_pow_increases(tb as nat, 1, dd);
        assert(pow(tb, 1nat) <= cap);
    }
    let delta: i128 = m as i128 - k;
    let mut acc: i128 = 0;
    let mut i: usize = 0;
    while i < size
        invariant
            i <= size,
            acc == bernstein_partial(pts, k as int, m as int, i as nat),
            abs(acc as int) <= i * (cap * pm),
        decreases size - i,
    {
        let c: i128 = row[i] as i128;
        let e1 = d - i;
        proof {
            lemma_binom_le_pow2(dd, i as nat);
            lemma_pow_le_base(abs(delta as int) as int, tb, e1 as nat);
            assert(pow(tb, e1 as nat) <= cap);
        }
        let a = pow_i128(delta, e1);
        proof {
            lemma_pow_abs(delta as int, e1 as nat);
            lemma_pow_le_base(abs(k as int) as int, tb, i as nat);
            assert(pow(tb, i as nat) <= cap);
        }
        let b = pow_i128(k, i);
        proof {
            lemma_pow_abs(k as int, i as nat);
            lemma_abs_mul_le(c as int, a as int, pow2(dd) as int, pow(tb, e1 as nat));
            lemma_pow_increases(tb as nat, e1 as nat, dd);
            vstd::arithmetic::mul::lemma_mul_left_inequality(
                pow2(dd) as int,
                pow(tb, e1 as nat),
                pow(tb, dd),
            );
            assert(abs((c * a) as int) <= cap);
        }
        let t1 = c * a;
        proof {
            lemma_abs_mul_le(
                t1 as int,
                b as int,
                pow2(dd) * pow(tb, e1 as nat),
                pow(tb, i as nat),
            );
            lemma_pow_adds(tb, e1 as nat, i as nat);
            assert((pow2(dd) * pow(tb, e1 as nat)) * pow(tb, i as nat) == cap) by (nonlinear_arith)
                requires
                    pow(tb, dd) == pow(tb, e1 as nat) * pow(tb, i as nat),
                    cap == pow2(dd) * pow(tb, dd),
            ;
            assert(abs((t1 * b) as int) <= cap);
        }
        let t2 = t1 * b;
        let p = points[i] as i128;
        proof {
            lemma_max_abs_bound(pts, i as int);
            assert(abs(p as int) <= pm);
            lemma_abs_mul_le(t2 as int, p as int, cap, pm);
            assert(cap * pm <= size * (cap * pm)) by (nonlinear_arith)
                requires
                    size >= 1,
                    cap >= 1,
                    pm >= 0,
            ;
        }
        let t3 = t2 * p;
        proof {
            lemma_mul_nonnegative(cap, pm);
            assert((i + 1) * (cap * pm) == i * (cap * pm) + cap * pm) by (nonlinear_arith);
            lemma_mul_inequality(i + 1, size as int, cap * pm);
            assert(abs((acc + t3) as int) <= size * (cap * pm));
        }
        acc = acc + t3;
        proof {
            assert(bernstein_partial(pts, k as int, m as int, (i + 1) as nat)
                == bernstein_partial(pts, k as int, m as int, i as nat)
                    + bernstein_term(dd, i as nat, k as int, m as int) * pts[i as int]);
            assert(t2 * p == bernstein_term(dd, i as nat, k as int, m as int) * pts[i as int]);
        }
        i = i + 1;
    }
    acc
}

/// Evaluates the Bézier curve over `control_points` at the rational
/// parameter `t_num / t_den`, by direct Bernstein summation.
///
/// The result is the exact numerator of the curve value over the denominator
/// `t_den^d`, where `d` is the curve degree `control_points.len() - 1`.
/// Parameters outside [0, 1] (`t_num < 0` or `t_num > t_den`) are permitted
/// and extrapolate the polynomial. The one failure is an empty control-point
/// sequence. The degree limit of 63 keeps every binomial coefficient exact
/// in 64 bits, and `eval_fits` is the head-room within which every
/// intermediate product stays inside `i128`.
pub fn calculate_recursive_bezier(control_points: &Vec<i64>, t_num: i64, t_den: u64) -> (r: Result<
    i128,
    InvalidInput,
>)
    requires
        control_points@.len() <= 64,
        t_den >= 1,
        control_points@.len() >= 1 ==> eval_fits(
            as_ints(control_points@),
            t_num as int,
            t_den as int,
        ),
    ensures
        r is Ok <==> control_points@.len() >= 1,
        control_points@.len() >= 1 ==> (r matches Ok(v) && v == bezier_num(
            as_ints(control_points@),
            t_num as int,
            t_den as int,
        )),
        control_points@.len() == 0 ==> r == Err::<i128, InvalidInput>(
            InvalidInput::NoControlPoints,
        ),
{
    if control_points.len() == 0 {
        return Err(InvalidInput::NoControlPoints);
    }
    Ok(bezier_num_exec(control_points, t_num as i128, t_den))
}

/// One evaluated curve sample: the parameter `t = t_num / t_den` and the
/// exact curve value `value_num / value_den` there, with
/// `value_den == t_den^d` for a curve of degree `d`.
#[derive(Clone, Copy, Debug, PartialEq, Eq, Structural)]
pub struct SamplePoint {
    pub t_num: u64,
    pub t_den: u64,
    pub value_num: i128,
    pub value_den: u128,
}

/// What a successful sampling run over `points` returns: one sample for each
/// `j` in `[0, sample_count)`, at parameter `j / (sample_count - 1)`, holding
/// the exact scaled curve value there.
pub open spec fn sample_post(points: Seq<int>, sample_count: int, s: Seq<SamplePoint>) -> bool {
    let m = sample_count - 1;
    let d = (points.len() - 1) as nat;
    &&& s.len() == sample_count
    &&& forall|j: int|
        0 <= j < s.len() ==> {
            &&& (#[trigger] s[j]).t_num == j
            &&& s[j].t_den == m
            &&& s[j].value_num == bezier_num(points, j, m)
            &&& s[j].value_den == pow(m, d)
        }
}

/// Samples the curve at `sample_count` uniformly spaced parameters
/// `j / (sample_count - 1)`, in ascending parameter order, so that the first
/// sample sits at parameter 0 and the last at parameter 1 exactly.
///
/// Fails, producing no samples at all, if and only if there are fewer than
/// two control points or `sample_count < 2` (with fewer than two samples the
/// parameter step `1 / (sample_count - 1)` is undefined). The first sample's
/// value is exactly the first control point, and the last sample's value
/// exactly the last control point, each scaled by `value_den`.
#[verifier::loop_isolation(false)]
pub fn sample(control_points: &Vec<i64>, sample_count: usize) -> (r: Result<
    Vec<SamplePoint>,
    InvalidInput,
>)
    requires
        control_points@.len() <= 64,
        control_points@.len() >= 2 && sample_count >= 2 ==> sample_fits(
            as_ints(control_points@),
            sample_count - 1,
        ),
    ensures
        r is Ok <==> control_points@.len() >= 2 && sample_count >= 2,
        control_points@.len() < 2 ==> r == Err::<Vec<SamplePoint>, InvalidInput>(
            InvalidInput::TooFewControlPoints,
        ),
        control_points@.len() >= 2 && sample_count < 2 ==> r == Err::<
            Vec<SamplePoint>,
            InvalidInput,
        >(InvalidInput::SampleCountTooSmall),
        r matches Ok(s) ==> sample_post(as_ints(control_points@), sample_count as int, s@),
        r matches Ok(s) ==> {
            let pts = as_ints(control_points@);
            let m = sample_count - 1;
            let d = (pts.len() - 1) as nat;
            &&& s@[0].t_num == 0
            &&& s@[s@.len() - 1].t_num == s@[s@.len() - 1].t_den
            &&& s@[0].value_num == pow(m, d) * pts[0]
            &&& s@[s@.len() - 1].value_num == pow(m, d) * pts[pts.len() - 1]
        },
{
    let ghost pts = as_ints(control_points@);
    if control_points.len() < 2 {
        return Err(InvalidInput::TooFewControlPoints);
    }
    if sample_count < 2 {
        return Err(InvalidInput::SampleCountTooSmall);
    }
    let m: u64 = (sample_count - 1) as u64;
    let d = control_points.len() - 1;
    let ghost dd = d as nat;
    proof {
        lemma_max_abs_nonneg(pts);
        lemma_pow2_pos(dd);
        lemma_fits_parts(pts, m as int);
        assert(pow(m as int, dd) <= term_cap(pts, m as int));
        lemma_pow_nonneg(m as int, dd);
        lemma_pow_abs(m as int, dd);
    }
    let vden_signed = pow_i128(m as i128, d);
    let vden: u128 = vden_signed as u128;
    let mut out: Vec<SamplePoint> = Vec::new();
    let mut j: usize = 0;
    while j < sample_count
        invariant
            j <= sample_count,
            out@.len() == j,
            forall|q: int|
                0 <= q < j ==> {
                    &&& (#[trigger] out@[q]).t_num == q
                    &&& out@[q].t_den == m
                    &&& out@[q].value_num == bezier_num(pts, q, m as int)
                    &&& out@[q].value_den == pow(m as int, dd)
                },
        decreases sample_count - j,
    {
        proof {
            lemma_sample_fits_eval(pts, j as int, m as int);
        }
        let value_num = bezier_num_exec(control_points, j as i128, m);
        out.push(
            SamplePoint {
                t_num: j as u64,
                t_den: m,
                value_num,
                value_den: vden,
            },
        );
        j = j + 1;
    }
    proof {
        lemma_curve_starts_at_first_point(pts, m as int);
        lemma_curve_ends_at_last_point(pts, m as int);
        assert(out@[sample_count - 1].value_num == bezier_num(pts, m as int, m as int));
    }
    Ok(out)
}

/// The largest control-point magnitude, as a machine integer.
#[verifier::loop_isolation(false)]
fn max_abs_exec(points: &Vec<i64>) -> (r: u64)
    ensures
        r == max_abs(as_ints(points@)),
{
    let ghost pts = as_ints(points@);
    let mut cur: u64 = 0;
    let mut i: usize = points.len();
    proof {
        assert(pts.skip(points@.len() as int) =~= Seq::<int>::empty());
    }
    while i > 0
        invariant
            i <= points@.len(),
            cur == max_abs(pts.skip(i as int)),
        decreases i,
    {
        i = i - 1;
        let v = points[i];
        let a: u64 = if v < 0 {
            (-(v as i128)) as u64
        } else {
            v as u64
        };
        proof {
            assert(a == abs(pts[i as int]));
            assert(pts.skip(i as int).drop_first() =~= pts.skip(i as int + 1));
            assert(pts.skip(i as int)[0] == pts[i as int]);
        }
        if a > cur {
            cur = a;
        }
    }
    proof {
        assert(pts.skip(0) =~= pts);
    }
    cur
}

/// Decides, in plain machine arithmetic, whether a whole sampling run over
/// these control points stays within `i128`: exactly the head-room that
/// `sample` and `calculate_recursive_bezier` ask of their callers. A caller
/// who cannot establish `sample_fits` by proof can therefore test it at run
/// time and call `sample` behind the test.
#[verifier::loop_isolation(false)]
pub fn sampling_fits(control_points: &Vec<i64>, sample_count: usize) -> (b: bool)
    requires
        1 <= control_points@.len() <= 64,
        sample_count >= 2,
    ensures
        b == sample_fits(as_ints(control_points@), sample_count - 1),
{
    let ghost pts = as_ints(control_points@);
    let len = control_points.len();
    let d = len - 1;
    let ghost dd = d as nat;
    let m: u64 = (sample_count - 1) as u64;
    let ghost mi = m as int;
    let pm = max_abs_exec(control_points);
    let c2 = pow2_u128(d);
    proof {
        lemma_max_abs_nonneg(pts);
        lemma_pow2_pos(dd);
        lemma2_to64_rest();
        if d < 63 {
            lemma_pow2_strictly_increases(dd, 63);
        }
        assert(c2 <= pow2(63));
        reveal(pow);
    }
    let mut pw: u128 = 1;
    let mut j: usize = 0;
    while j < d
        invariant
            j <= d,
            pw == pow(mi, j as nat),
        decreases d - j,
    {
        proof {
            reveal(pow);
            assert(pow(mi, (j + 1) as nat) == mi * pow(mi, j as nat));
            assert(pw * (m as u128) == mi * pow(mi, j as nat)) by (nonlinear_arith)
                requires
                    pw == pow(mi, j as nat),
                    mi == m,
            ;
        }
        match pw.checked_mul(m as u128) {
            Some(next) => {
                pw = next;
            },
            None => {
                proof {
                    lemma_pow_nonneg(mi, (j + 1) as nat);
                    lemma_pow_increases(m as nat, (j + 1) as nat, dd);
                    assert(pow(mi, dd) > u128::MAX);
                    lemma_fits_grows(pts, mi);
                    assert(fits_bound(pts, mi) > i128::MAX);
                }
                return false;
            },
        }
        j = j + 1;
    }
    proof {
        assert(pow2(63) == 0x8000000000000000) by {
            lemma2_to64_rest();
        }
        assert(len * c2 <= 64 * 0x8000000000000000) by (nonlinear_arith)
            requires
                0 < len <= 64,
                0 <= c2 <= 0x8000000000000000,
        ;
    }
    let t1: u128 = (len as u128) * c2;
    proof {
        assert(t1 * pw == len * term_cap(pts, mi)) by (nonlinear_arith)
            requires
                t1 == len * c2,
                c2 == pow2(dd),
                pw == pow(mi, dd),
                term_cap(pts, mi) == pow2(dd) * pow(mi, dd),
        ;
    }
    let t2: u128 = match t1.checked_mul(pw) {
        Some(t2) => t2,
        None => {
            proof {
                lemma_fits_factor_grows(pts, mi);
            }
            return false;
        },
    };
    let pmp: u128 = pm as u128 + 1;
    match t2.checked_mul(pmp) {
        Some(total) => total <= (i128::MAX as u128),
        None => {
            proof {
                assert(fits_bound(pts, mi) == t2 * pmp);
            }
            false
        },
    }
}

/// With every factor of `fits_bound` at least one, the bound dominates the
/// power of the sampling denominator alone.
proof fn lemma_fits_grows(points: Seq<int>, m: int)
    requires
        points.len() >= 1,
        m >= 1,
    ensures
        fits_bound(points, m) >= pow(m, (points.len() - 1) as nat),
{
    let d = (points.len() - 1) as nat;
    let len = points.len() as int;
    let pm = max_abs(points);
    let c2 = pow2(d) as int;
    let cp = pow(m, d);
    lemma_max_abs_nonneg(points);
    lemma_pow2_pos(d);
    lemma_pow_nonneg(m, d);
    assert(len * (c2 * cp) * (pm + 1) >= cp) by (nonlinear_arith)
        requires
            len >= 1,
            c2 >= 1,
            cp >= 0,
            pm >= 0,
    ;
}

/// With the last factor of `fits_bound` at least one, the bound dominates
/// the product of the other factors.
proof fn lemma_fits_factor_grows(points: Seq<int>, m: int)
    requires
        points.len() >= 1,
        m >= 1,
    ensures
        fits_bound(points, m) >= points.len() * term_cap(points, m),
{
    let d = (points.len() - 1) as nat;
    let len = points.len() as int;
    let pm = max_abs(points);
    let c2 = pow2(d) as int;
    let cp = pow(m, d);
    lemma_max_abs_nonneg(points);
    lemma_pow2_pos(d);
    lemma_pow_nonneg(m, d);
    assert(len * (c2 * cp) * (pm + 1) >= len * (c2 * cp)) by (nonlinear_arith)
        requires
            len >= 1,
            c2 >= 1,
            cp >= 0,
            pm >= 0,
    ;
}

/// Sampling is deterministic: any two runs over the same control points and
/// sample count yield the same samples, value for value. The contract of
/// `sample` pins every field of every sample, so two results that both meet
/// it are equal.
pub proof fn lemma_sample_deterministic(
    points: Seq<int>,
    sample_count: int,
    s1: Seq<SamplePoint>,
    s2: Seq<SamplePoint>,
)
    requires
        sample_post(points, sample_count, s1),
        sample_post(points, sample_count, s2),
    ensures
        s1 == s2,
{
    assert forall|j: int| 0 <= j < s1.len() implies s1[j] == s2[j] by {
        assert(s1[j].t_num == s2[j].t_num);
        assert(s1[j].t_den == s2[j].t_den);
        assert(s1[j].value_num == s2[j].value_num);
        assert(s1[j].value_den == s2[j].value_den);
    }
    assert(s1 =~= s2);
}

} // verus!
