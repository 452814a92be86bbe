//! The scorer: a weighted sum of a normalized five-metric vector, scaled
//! and squashed through a fixed-point logistic curve into a bounded score.
//!
//! The score is in hundredths of a point, from 0 to 10000, so `5000` reads
//! as `50.00`. The logistic curve is approximated in fixed point by
//! `e^x ~ (1 + x/256)^256` with the argument capped at sixteen whole
//! units, far beyond where scores saturate; the approximation is monotone,
//! stays within the score bounds, and squashes a zero sum to exactly
//! `50.00`.

use vstd::arithmetic::div_mod::lemma_div_by_multiple;
use vstd::arithmetic::div_mod::lemma_div_denominator;
use vstd::arithmetic::div_mod::lemma_div_is_ordered;
use vstd::arithmetic::div_mod::lemma_div_nonincreasing;
use vstd::arithmetic::div_mod::lemma_div_pos_is_pos;
use vstd::arithmetic::mul::lemma_mul_inequality;
use vstd::prelude::*;

use crate::model::MAX_METRIC;
use crate::model::Position;

verus! {

/// One whole unit of the logistic curve's fixed-point argument, in
/// millionths.
pub const SIG_UNIT: i64 = 1_000_000;

/// Where the logistic argument is capped, in millionths: sixteen whole
/// units, where the curve has long saturated.
pub const SIG_CAP: i64 = 16_000_000;

/// The largest value the fixed-point exponential can reach at the cap.
pub const GROW_MAX: i64 = 5_497_591_571_474;

/// The full score, in hundredths: `100.00`.
pub const SCORE_ONE: i64 = 10000;

/// The weight vector of a position, in hundredths: the share of each
/// metric in the weighted sum.
pub open spec fn weights(p: Position) -> Seq<int> {
    match p {
        Position::Center => seq![25int, 30, 15, 20, 10],
        Position::Wing => seq![35int, 25, 15, 20, 5],
        Position::Defense => seq![15int, 30, 20, 20, 15],
    }
}

/// The scaling factor applied to the weighted sum before the squash.
pub open spec fn scale_factor() -> int {
    5
}

/// The dot product of the first `n` metrics and weights.
pub open spec fn dot(m: Seq<i64>, w: Seq<int>, n: int) -> int
    decreases n,
{
    if n <= 0 {
        0
    } else {
        dot(m, w, n - 1) + m[n - 1] * w[n - 1]
    }
}

/// The weighted sum of a five-metric vector under a position's weights.
pub open spec fn weighted_sum(m: Seq<i64>, p: Position) -> int {
    dot(m, weights(p), 5)
}

/// A value clamped to an interval.
pub open spec fn clamp_spec(x: int, lo: int, hi: int) -> int {
    if x < lo {
        lo
    } else if x > hi {
        hi
    } else {
        x
    }
}

/// One squaring step of the fixed-point exponential.
pub open spec fn sq(r: int) -> int {
    r * r / (SIG_UNIT as int)
}

/// The fixed-point exponential `e^x` in millionths, for an argument in
/// millionths between zero and the cap: `(1 + x/256)^256` by eight
/// squarings.
pub open spec fn grow_spec(x: int) -> int {
    let t = SIG_UNIT + x / 256;
    sq(sq(sq(sq(sq(sq(sq(sq(t))))))))
}

/// The fixed-point logistic curve in hundredths of a point: the value of
/// `100 / (1 + e^-x)` with the argument capped at the saturation bound.
pub open spec fn sigmoid_centi(x: int) -> int {
    if x >= 0 {
        let g = grow_spec(clamp_spec(x, 0, SIG_CAP as int));
        SCORE_ONE * g / (g + SIG_UNIT)
    } else {
        let g = grow_spec(clamp_spec(-x, 0, SIG_CAP as int));
        SCORE_ONE * SIG_UNIT / (g + SIG_UNIT)
    }
}

/// What the scorer yields: zero for a vector that is not exactly five
/// metrics long, and otherwise the logistic squash of the weighted sum
/// times the scaling factor. The argument of the squash is held in
/// millionths, so the sum of thousandth-metrics and hundredth-weights is
/// scaled by ten beyond the scaling factor.
pub open spec fn score_spec(p: Position, m: Seq<i64>) -> int {
    if m.len() != 5 {
        0
    } else {
        sigmoid_centi(
            scale_factor() * 10 * clamp_spec(weighted_sum(m, p), -320_000, 320_000),
        )
    }
}

/// The value of one squaring step, given the product and remainder.
proof fn lemma_sq_value(a: int, q: int, rem: int)
    requires
        0 <= a,
        a * a == 1_000_000 * q + rem,
        0 <= rem < 1_000_000,
        0 <= q,
    ensures
        sq(a) == q,
{
    vstd::arithmetic::div_mod::lemma_fundamental_div_mod_converse(a * a, 1_000_000, q, rem);
}

/// The concrete squaring chain of the exponential's bound at the cap.
proof fn lemma_sq_chain()
    ensures
        sq(1_000_000) == 1_000_000,
        sq(1_062_500) == 1_128_906,
        sq(1_128_906) == 1_274_428,
        sq(1_274_428) == 1_624_166,
        sq(1_624_166) == 2_637_915,
        sq(2_637_915) == 6_958_595,
        sq(6_958_595) == 48_422_044,
        sq(48_422_044) == 2_344_694_345,
        sq(2_344_694_345) == GROW_MAX as int,
{
    assert(1_000_000int * 1_000_000 == 1_000_000int * 1_000_000 + 0) by (nonlinear_arith);
    lemma_sq_value(1_000_000, 1_000_000, 0);
    assert(1_062_500int * 1_062_500 == 1_000_000int * 1_128_906 + 250_000) by (nonlinear_arith);
    lemma_sq_value(1_062_500, 1_128_906, 250_000);
    assert(1_128_906int * 1_128_906 == 1_000_000int * 1_274_428 + 756_836) by (nonlinear_arith);
    lemma_sq_value(1_128_906, 1_274_428, 756_836);
    assert(1_274_428int * 1_274_428 == 1_000_000int * 1_624_166 + 727_184) by (nonlinear_arith);
    lemma_sq_value(1_274_428, 1_624_166, 727_184);
    assert(1_624_166int * 1_624_166 == 1_000_000int * 2_637_915 + 195_556) by (nonlinear_arith);
    lemma_sq_value(1_624_166, 2_637_915, 195_556);
    assert(2_637_915int * 2_637_915 == 1_000_000int * 6_958_595 + 547_225) by (nonlinear_arith);
    lemma_sq_value(2_637_915, 6_958_595, 547_225);
    assert(6_958_595int * 6_958_595 == 1_000_000int * 48_422_044 + 374_025) by (nonlinear_arith);
    lemma_sq_value(6_958_595, 48_422_044, 374_025);
    assert(48_422_044int * 48_422_044 == 1_000_000int * 2_344_694_345 + 137_936)
        by (nonlinear_arith);
    lemma_sq_value(48_422_044, 2_344_694_345, 137_936);
    assert(2_344_694_345int * 2_344_694_345 == 1_000_000int * 5_497_591_571_474 + 979_025)
        by (nonlinear_arith);
    lemma_sq_value(2_344_694_345, 5_497_591_571_474, 979_025);
}

/// A squaring step keeps the exponential between one unit and the square
/// of any bound on its argument.
proof fn lemma_sq_bounds(a: int, b: int)
    requires
        SIG_UNIT <= a <= b,
    ensures
        SIG_UNIT <= sq(a) <= sq(b),
        sq(b) <= b * b / (SIG_UNIT as int),
{
    lemma_mul_inequality(a, b, a);
    lemma_mul_inequality(a, b, b);
    assert(a * b == b * a) by (nonlinear_arith);
    assert(a * a <= b * b);
    lemma_mul_inequality(SIG_UNIT as int, a, SIG_UNIT as int);
    lemma_mul_inequality(SIG_UNIT as int, a, a);
    assert(SIG_UNIT * SIG_UNIT <= a * a) by (nonlinear_arith)
        requires
            SIG_UNIT <= a,
    ;
    lemma_div_is_ordered(SIG_UNIT * SIG_UNIT, a * a, SIG_UNIT as int);
    assert(SIG_UNIT * SIG_UNIT / (SIG_UNIT as int) == SIG_UNIT as int) by {
        lemma_div_by_multiple(SIG_UNIT as int, SIG_UNIT as int);
    }
    lemma_div_is_ordered(a * a, b * b, SIG_UNIT as int);
}

/// The fixed-point exponential is monotone and bounded between one unit
/// and its value at the cap.
pub proof fn lemma_grow_props(x1: int, x2: int)
    requires
        0 <= x1 <= x2 <= SIG_CAP,
    ensures
        SIG_UNIT <= grow_spec(x1) <= grow_spec(x2) <= GROW_MAX,
{
    lemma_sq_chain();
    let t1 = SIG_UNIT + x1 / 256;
    let t2 = SIG_UNIT + x2 / 256;
    lemma_div_pos_is_pos(x1, 256);
    lemma_div_is_ordered(x1, x2, 256);
    lemma_div_is_ordered(x2, SIG_CAP as int, 256);
    assert(SIG_CAP / 256 == 62_500);
    assert(SIG_UNIT <= t1 <= t2 <= 1_062_500);
    lemma_sq_bounds(t1, t2);
    lemma_sq_bounds(t2, 1_062_500);
    lemma_sq_bounds(sq(t1), sq(t2));
    lemma_sq_bounds(sq(t2), 1_128_906);
    lemma_sq_bounds(sq(sq(t1)), sq(sq(t2)));
    lemma_sq_bounds(sq(sq(t2)), 1_274_428);
    lemma_sq_bounds(sq(sq(sq(t1))), sq(sq(sq(t2))));
    lemma_sq_bounds(sq(sq(sq(t2))), 1_624_166);
    lemma_sq_bounds(sq(sq(sq(sq(t1)))), sq(sq(sq(sq(t2)))));
    lemma_sq_bounds(sq(sq(sq(sq(t2)))), 2_637_915);
    lemma_sq_bounds(sq(sq(sq(sq(sq(t1))))), sq(sq(sq(sq(sq(t2))))));
    lemma_sq_bounds(sq(sq(sq(sq(sq(t2))))), 6_958_595);
    lemma_sq_bounds(sq(sq(sq(sq(sq(sq(t1)))))), sq(sq(sq(sq(sq(sq(t2)))))));
    lemma_sq_bounds(sq(sq(sq(sq(sq(sq(t2)))))), 48_422_044);
    lemma_sq_bounds(sq(sq(sq(sq(sq(sq(sq(t1))))))), sq(sq(sq(sq(sq(sq(sq(t2))))))));
    lemma_sq_bounds(sq(sq(sq(sq(sq(sq(sq(t2))))))), 2_344_694_345);
}

/// Floor division preserves the order of two nonnegative fractions once
/// they are cross-multiplied.
proof fn lemma_frac_le(a: int, b: int, c: int, d: int)
    requires
        0 <= a,
        0 < b,
        0 <= c,
        0 < d,
        a * d <= c * b,
    ensures
        a / b <= c / d,
{
    lemma_div_by_multiple(a, d);
    lemma_div_denominator(a * d, d, b);
    assert(a / b == (a * d) / (d * b));
    lemma_div_by_multiple(c, b);
    lemma_div_denominator(c * b, b, d);
    assert(c / d == (c * b) / (b * d));
    assert(d * b == b * d) by (nonlinear_arith);
    lemma_div_is_ordered(a * d, c * b, b * d);
}

/// The logistic curve never leaves the score range.
pub proof fn lemma_sigmoid_range(x: int)
    ensures
        0 <= sigmoid_centi(x) <= SCORE_ONE,
{
    if x >= 0 {
        let g = grow_spec(clamp_spec(x, 0, SIG_CAP as int));
        lemma_grow_props(clamp_spec(x, 0, SIG_CAP as int), SIG_CAP as int);
        lemma_div_pos_is_pos(SCORE_ONE * g, g + SIG_UNIT);
        lemma_frac_le(SCORE_ONE * g, g + SIG_UNIT, SCORE_ONE as int, 1);
    } else {
        let g = grow_spec(clamp_spec(-x, 0, SIG_CAP as int));
        lemma_grow_props(clamp_spec(-x, 0, SIG_CAP as int), SIG_CAP as int);
        lemma_div_pos_is_pos(SCORE_ONE * SIG_UNIT, g + SIG_UNIT);
        lemma_frac_le(SCORE_ONE * SIG_UNIT, g + SIG_UNIT, SCORE_ONE as int, 1);
    }
}

/// The logistic curve is monotone in its argument.
pub proof fn lemma_sigmoid_mono(x1: int, x2: int)
    requires
        x1 <= x2,
    ensures
        sigmoid_centi(x1) <= sigmoid_centi(x2),
{
    if x1 >= 0 {
        let c1 = clamp_spec(x1, 0, SIG_CAP as int);
        let c2 = clamp_spec(x2, 0, SIG_CAP as int);
        let g1 = grow_spec(c1);
        let g2 = grow_spec(c2);
        lemma_grow_props(c1, c2);
        lemma_grow_props(c2, SIG_CAP as int);
        assert((SCORE_ONE * g1) * (g2 + SIG_UNIT) <= (SCORE_ONE * g2) * (g1 + SIG_UNIT))
            by (nonlinear_arith)
            requires
                0 <= g1 <= g2,
        ;
        lemma_frac_le(SCORE_ONE * g1, g1 + SIG_UNIT, SCORE_ONE * g2, g2 + SIG_UNIT);
    } else if x2 < 0 {
        let c1 = clamp_spec(-x1, 0, SIG_CAP as int);
        let c2 = clamp_spec(-x2, 0, SIG_CAP as int);
        let g1 = grow_spec(c1);
        let g2 = grow_spec(c2);
        lemma_grow_props(c2, c1);
        lemma_grow_props(c1, SIG_CAP as int);
        assert((SCORE_ONE * SIG_UNIT) * (g2 + SIG_UNIT) <= (SCORE_ONE * SIG_UNIT) * (g1
            + SIG_UNIT)) by (nonlinear_arith)
            requires
                g2 <= g1,
        ;
        lemma_frac_le(
            SCORE_ONE * SIG_UNIT,
            g1 + SIG_UNIT,
            SCORE_ONE * SIG_UNIT,
            g2 + SIG_UNIT,
        );
    } else {
        // The midpoint: a negative argument scores at most 50.00, a
        // nonnegative one at least 50.00.
        let c1 = clamp_spec(-x1, 0, SIG_CAP as int);
        let g1 = grow_spec(c1);
        lemma_grow_props(c1, SIG_CAP as int);
        assert(SCORE_ONE * SIG_UNIT <= 5000 * (g1 + SIG_UNIT)) by (nonlinear_arith)
            requires
                g1 >= SIG_UNIT,
        ;
        lemma_div_is_ordered(SCORE_ONE * SIG_UNIT, 5000 * (g1 + SIG_UNIT), g1 + SIG_UNIT);
        lemma_div_by_multiple(5000, g1 + SIG_UNIT);
        assert(sigmoid_centi(x1) <= 5000);
        let c2 = clamp_spec(x2, 0, SIG_CAP as int);
        let g2 = grow_spec(c2);
        lemma_grow_props(c2, SIG_CAP as int);
        assert(5000 * (g2 + SIG_UNIT) <= SCORE_ONE * g2) by (nonlinear_arith)
            requires
                g2 >= SIG_UNIT,
        ;
        lemma_div_is_ordered(5000 * (g2 + SIG_UNIT), SCORE_ONE * g2, g2 + SIG_UNIT);
        lemma_div_by_multiple(5000, g2 + SIG_UNIT);
        assert(sigmoid_centi(x2) >= 5000);
    }
}

/// The fixed-point exponential of a capped nonnegative argument.
fn grow(x: i64) -> (r: i64)
    requires
        0 <= x <= SIG_CAP,
    ensures
        r == grow_spec(x as int),
        SIG_UNIT <= r <= GROW_MAX,
{
    proof {
        lemma_sq_chain();
        lemma_grow_props(x as int, x as int);
        lemma_grow_props(x as int, SIG_CAP as int);
        lemma_div_pos_is_pos(x as int, 256);
        lemma_div_is_ordered(x as int, SIG_CAP as int, 256);
        lemma_sq_bounds(SIG_UNIT + x as int / 256, 1_062_500);
        lemma_sq_bounds(sq(SIG_UNIT + x as int / 256), 1_128_906);
        lemma_sq_bounds(sq(sq(SIG_UNIT + x as int / 256)), 1_274_428);
        lemma_sq_bounds(sq(sq(sq(SIG_UNIT + x as int / 256))), 1_624_166);
        lemma_sq_bounds(sq(sq(sq(sq(SIG_UNIT + x as int / 256)))), 2_637_915);
        lemma_sq_bounds(sq(sq(sq(sq(sq(SIG_UNIT + x as int / 256))))), 6_958_595);
        lemma_sq_bounds(sq(sq(sq(sq(sq(sq(SIG_UNIT + x as int / 256)))))), 48_422_044);
        lemma_sq_bounds(sq(sq(sq(sq(sq(sq(sq(SIG_UNIT + x as int / 256))))))), 2_344_694_345);
    }
    let mut r: i64 = SIG_UNIT + x / 256;
    r = r * r / SIG_UNIT;
    r = r * r / SIG_UNIT;
    r = r * r / SIG_UNIT;
    r = r * r / SIG_UNIT;
    r = r * r / SIG_UNIT;
    r = r * r / SIG_UNIT;
    r = r * r / SIG_UNIT;
    r = r * r / SIG_UNIT;
    r
}

/// The fixed-point logistic curve of an argument in millionths.
fn sigmoid(x: i64) -> (s: i64)
    requires
        -SIG_CAP <= x <= SIG_CAP,
    ensures
        s == sigmoid_centi(x as int),
        0 <= s <= SCORE_ONE,
{
    proof {
        lemma_sigmoid_range(x as int);
    }
    if x >= 0 {
        let g = grow(x);
        (SCORE_ONE * g) / (g + SIG_UNIT)
    } else {
        let g = grow(-x);
        (SCORE_ONE * SIG_UNIT) / (g + SIG_UNIT)
    }
}

/// Converts a normalized metric vector into one bounded score: the
/// position's weighted sum, scaled and squashed through the logistic
/// curve into hundredths of a point in `[0, 10000]`. A vector that is not
/// exactly five metrics long scores zero; fixed-point metrics are always
/// finite, so the non-finite check of the scoring policy holds vacuously.
pub fn calculate_score(position: &Position, metrics: &Vec<i64>) -> (s: i64)
    requires
        forall|i: int|
            0 <= i < metrics@.len() ==> -MAX_METRIC <= #[trigger] metrics@[i] <= MAX_METRIC,
    ensures
        s == score_spec(*position, metrics@),
        0 <= s <= SCORE_ONE,
{
    if metrics.len() != 5 {
        proof {
            lemma_sigmoid_range(0);
        }
        return 0;
    }
    let (w0, w1, w2, w3, w4): (i64, i64, i64, i64, i64) = match position {
        Position::Center => (25, 30, 15, 20, 10),
        Position::Wing => (35, 25, 15, 20, 5),
        Position::Defense => (15, 30, 20, 20, 15),
    };
    let ws: i64 = metrics[0] * w0 + metrics[1] * w1 + metrics[2] * w2 + metrics[3] * w3
        + metrics[4] * w4;
    proof {
        reveal_with_fuel(dot, 6);
        assert(ws == weighted_sum(metrics@, *position));
    }
    let wsc: i64 = if ws > 320_000 {
        320_000
    } else if ws < -320_000 {
        -320_000
    } else {
        ws
    };
    let x: i64 = 50 * wsc;
    proof {
        assert(x as int == scale_factor() * 10 * clamp_spec(
            weighted_sum(metrics@, *position),
            -320_000,
            320_000,
        ));
    }
    sigmoid(x)
}

/// Raising one entry of the dot product's left side, with a nonnegative
/// weight there and everything else fixed, never lowers the product.
proof fn lemma_dot_mono(m1: Seq<i64>, m2: Seq<i64>, w: Seq<int>, j: int, n: int)
    requires
        n <= m1.len() == m2.len() <= w.len(),
        0 <= j < m1.len(),
        forall|i: int| 0 <= i < m1.len() && i != j ==> m1[i] == m2[i],
        m1[j] <= m2[j],
        w[j] >= 0,
    ensures
        dot(m1, w, n) <= dot(m2, w, n),
    decreases n,
{
    if n > 0 {
        lemma_dot_mono(m1, m2, w, j, n - 1);
        if n - 1 == j {
            lemma_mul_inequality(m1[j] as int, m2[j] as int, w[j]);
        }
    }
}

/// Scoring is monotone increasing in each metric: raising one metric of a
/// five-metric vector while the others stay fixed never lowers the score,
/// whatever the position, since every weight is positive.
pub proof fn lemma_score_monotonic(p: Position, m1: Seq<i64>, m2: Seq<i64>, j: int)
    requires
        m1.len() == 5,
        m2.len() == 5,
        0 <= j < 5,
        forall|i: int| 0 <= i < 5 && i != j ==> m1[i] == m2[i],
        m1[j] <= m2[j],
    ensures
        score_spec(p, m1) <= score_spec(p, m2),
{
    assert(weights(p)[j] >= 5) by {
        if j == 0 {
        } else if j == 1 {
        } else if j == 2 {
        } else if j == 3 {
        } else {
            assert(j == 4);
        }
    }
    lemma_dot_mono(m1, m2, weights(p), j, 5);
    let ws1 = weighted_sum(m1, p);
    let ws2 = weighted_sum(m2, p);
    let c1 = clamp_spec(ws1, -320_000, 320_000);
    let c2 = clamp_spec(ws2, -320_000, 320_000);
    assert(c1 <= c2);
    lemma_sigmoid_mono(50 * c1, 50 * c2);
}

/// Every score lies between zero and the full score.
pub proof fn lemma_score_range(p: Position, m: Seq<i64>)
    ensures
        0 <= score_spec(p, m) <= SCORE_ONE,
{
    if m.len() == 5 {
        lemma_sigmoid_range(
            scale_factor() * 10 * clamp_spec(weighted_sum(m, p), -320_000, 320_000),
        );
    }
}

/// Scoring an all-zero five-metric vector yields exactly half the full
/// score, `50.00`: the logistic squash of a zero sum.
pub proof fn lemma_score_of_zeros(p: Position, m: Seq<i64>)
    requires
        m.len() == 5,
        forall|i: int| 0 <= i < 5 ==> m[i] == 0,
    ensures
        score_spec(p, m) == 5000,
{
    reveal_with_fuel(dot, 6);
    assert(weighted_sum(m, p) == 0);
    lemma_sq_chain();
    assert(clamp_spec(0, 0, SIG_CAP as int) == 0);
    vstd::arithmetic::div_mod::lemma_div_of0(256);
    assert(grow_spec(0) == 1_000_000);
    assert(SCORE_ONE * 1_000_000int == 10_000_000_000int) by (nonlinear_arith);
    assert(10_000_000_000int == 2_000_000int * 5000 + 0) by (nonlinear_arith);
    vstd::arithmetic::div_mod::lemma_fundamental_div_mod_converse(
        10_000_000_000,
        2_000_000,
        5000,
        0,
    );
    assert(sigmoid_centi(0) == 5000);
    assert(clamp_spec(weighted_sum(m, p), -320_000, 320_000) == 0);
    assert(scale_factor() * 10 * clamp_spec(weighted_sum(m, p), -320_000, 320_000) == 0);
    assert(score_spec(p, m) == sigmoid_centi(0));
}

} // verus!
