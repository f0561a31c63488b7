//! What holds of normalisation over the reals.
use crate::exact::{
    exact, lemma_associate, lemma_cancel, lemma_commute, lemma_distribute, lemma_distribute_back,
    lemma_exact_sum, lemma_exact_terms, lemma_is_quotient, lemma_negate, lemma_positive,
    lemma_quotient, lemma_square, lemma_sum_same, lemma_total_combined, lemma_total_is_sum,
    lemma_total_sign, lemma_total_zeros, sum_of, total, values,
};
use crate::nn::layer_norm::{
    centered, epsilon_of, input_share, mean_of, normalized, normalizes, returns_shares, rstd_of,
    scale_share, LayerNorm,
};
use crate::nn::NeuralNetwork;
use crate::scalar::Scalar;
use crate::state::State;
use crate::tensor::{lemma_size1, lemma_size2, lemma_size3, Content};
use crate::vector::{lemma_rows_apart, products, row, zeros};
use std::time::Duration;
use vstd::prelude::*;

verus! {

/// The squares of what a row deviates from `mean` by.
pub open spec fn deviations<E: Scalar>(val: spec_fn(E) -> real, x: Seq<E>, mean: real) -> Seq<real> {
    Seq::new(x.len(), |i: int| (val(x[i]) - mean) * (val(x[i]) - mean))
}

/// The mean of the real numbers that a row stands for.
pub open spec fn mean_value<E: Scalar>(val: spec_fn(E) -> real, x: Seq<E>) -> real {
    total(values(val, x)) / (x.len() as int as real)
}

/// The mean of the squared deviations of a row.
pub open spec fn variance<E: Scalar>(val: spec_fn(E) -> real, x: Seq<E>) -> real {
    total(deviations(val, x, mean_value(val, x))) / (x.len() as int as real)
}

/// The number that keeps the variance of a row away from zero.
pub open spec fn epsilon_value() -> real {
    (1 as real) / (100_000 as real)
}

/// Mean and inverse deviation of a row: the variance is the mean of the squares
/// less the square of the mean, and the inverse deviation is the inverse root of
/// the variance and epsilon.
pub proof fn law_mean_and_deviation<E: Scalar>(val: spec_fn(E) -> real, x: Seq<E>, d: usize)
    requires
        exact(val),
        x.len() == d,
        d > 0,
    ensures
        val(mean_of(x, d)) == mean_value(val, x),
        variance(val, x) >= 0 as real,
        variance(val, x) == total(values(val, products(x, x))) / (d as int as real) - mean_value(
            val,
            x,
        ) * mean_value(val, x),
        val(rstd_of(x, d)) > 0 as real,
        val(rstd_of(x, d)) * val(rstd_of(x, d)) * (variance(val, x) + epsilon_value())
            == 1 as real,
{
    let n = (d as int) as real;
    let xs = values(val, x);
    let squares = values(val, products(x, x));
    let mean = mean_value(val, x);
    let devs = deviations(val, x, mean);
    lemma_exact_sum(val, E::zero_spec(), x);
    lemma_exact_sum(val, E::zero_spec(), products(x, x));
    assert(val(mean_of(x, d)) == mean);
    assert(val(epsilon_of::<E>()) == epsilon_value() && epsilon_value() > 0 as real) by {
        assert(val(E::count_spec(100_000)) == 100_000 as real);
    }
    let (t, q) = (total(xs), total(squares));
    assert(t == mean * n) by {
        lemma_quotient(t, n);
    }
    let b = -(mean + mean);
    assert forall|i: int| 0 <= i < devs.len() implies #[trigger] devs[i] == (1 as real) * squares[i]
        + b * xs[i] + mean * mean by {
        let v = xs[i];
        assert(squares[i] == v * v);
        lemma_square_of_difference(v, mean);
    }
    lemma_total_combined(squares, xs, devs, 1 as real, b, mean * mean);
    let s = total(devs);
    let v = q / n - mean * mean;
    assert(v * n == s) by {
        lemma_quotient(q, n);
        lemma_commute(v, n);
        lemma_distribute_back(n, q / n, mean * mean);
        lemma_commute(n, q / n);
        lemma_commute(n, mean * mean);
        lemma_associate(mean, mean, n);
        lemma_negate(mean + mean, t);
        lemma_commute(mean + mean, t);
        lemma_distribute(t, mean, mean);
        lemma_commute(t, mean);
    }
    lemma_is_quotient(s, n, v);
    assert forall|i: int| 0 <= i < devs.len() implies #[trigger] devs[i] >= 0 as real by {
        lemma_square(xs[i] - mean);
    }
    lemma_total_sign(devs);
    if v < 0 as real {
        lemma_positive(-v, n);
        lemma_negate(v, n);
    }
}

/// The square of a difference.
proof fn lemma_square_of_difference(v: real, m: real)
    ensures
        (v - m) * (v - m) == v * v + (-(m + m)) * v + m * m,
{
    let u = v - m;
    lemma_distribute_back(u, v, m);
    lemma_commute(u, v);
    lemma_commute(u, m);
    lemma_distribute_back(v, v, m);
    lemma_distribute_back(m, v, m);
    lemma_commute(v, m);
    lemma_negate(m + m, v);
    lemma_commute(m + m, v);
    lemma_distribute(v, m, m);
}

/// The square of a product.
proof fn lemma_square_of_product(r: real, u: real)
    ensures
        (r * u) * (r * u) == r * r * (u * u),
{
    lemma_associate(r, u, r * u);
    lemma_commute(r, u);
    lemma_associate(u, u, r);
    lemma_commute(u * u, r);
    lemma_associate(r, r, u * u);
    lemma_associate(u, r, u);
    lemma_associate(r, u, u);
    lemma_commute(u, r * u);
    lemma_associate(r, u, u);
}

/// The share of a variance in the variance and epsilon.
proof fn lemma_share(v: real, e: real, rr: real, q: real, n: real)
    requires
        v >= 0 as real,
        e > 0 as real,
        n > 0 as real,
        rr * (v + e) == 1 as real,
        q == rr * (v * n),
    ensures
        q / n == v / (v + e),
        v / (v + e) < 1 as real,
{
    let k = v + e;
    lemma_associate(rr, v, n);
    lemma_is_quotient(q, n, rr * v);
    lemma_commute(rr, v);
    lemma_associate(v, rr, k);
    lemma_is_quotient(v, k, rr * v);
    let p = rr * v;
    assert(p * k == v);
    if p == 1 as real {
        assert(p * k == (1 as real) * k);
    } else if p > 1 as real {
        lemma_positive(k, p - 1 as real);
        lemma_distribute_back(k, p, 1 as real);
        lemma_commute(k, p);
    }
}

/// Two positive numbers with the same square are the same.
pub proof fn lemma_same_root(r: real, s: real, a: real)
    requires
        r > 0 as real,
        s > 0 as real,
        r * r * a == 1 as real,
        s * s * a == 1 as real,
    ensures
        r == s,
{
    if a == 0 as real {
        assert(r * r * (0 as real) == 0 as real);
    }
    lemma_cancel(r * r, s * s, a);
    let (low, high) = if r < s {
        (r, s)
    } else {
        (s, r)
    };
    if low < high {
        lemma_positive(low, high - low);
        lemma_distribute_back(low, high, low);
        lemma_positive(high, high - low);
        lemma_distribute_back(high, high, low);
        lemma_commute(low, high);
    }
}

/// Each number of a normalised row.
pub proof fn law_row_normalized<E: Scalar>(
    val: spec_fn(E) -> real,
    x: Seq<E>,
    w: Seq<E>,
    b: Seq<E>,
    d: usize,
)
    requires
        exact(val),
        x.len() == d,
        d > 0,
    ensures
        forall|i: int|
            0 <= i < d ==> val(#[trigger] normalized(x, w, b, d)[i]) == val(rstd_of(x, d)) * (val(
                x[i],
            ) - mean_value(val, x)) * val(w[i]) + val(b[i]),
{
    law_mean_and_deviation(val, x, d);
}

/// A row of equal numbers is normalised to the shift alone, and its inverse
/// deviation is the inverse root of epsilon.
pub proof fn law_constant_row<E: Scalar>(
    val: spec_fn(E) -> real,
    x: Seq<E>,
    c: real,
    w: Seq<E>,
    b: Seq<E>,
    d: usize,
)
    requires
        exact(val),
        x.len() == d,
        b.len() == d,
        d > 0,
        forall|i: int| 0 <= i < d ==> val(#[trigger] x[i]) == c,
    ensures
        val(mean_of(x, d)) == c,
        val(rstd_of(x, d)) > 0 as real,
        val(rstd_of(x, d)) * val(rstd_of(x, d)) == 100_000 as real,
        values(val, normalized(x, w, b, d)) == values(val, b),
{
    let n = (d as int) as real;
    let xs = values(val, x);
    law_mean_and_deviation(val, x, d);
    law_row_normalized(val, x, w, b, d);
    assert forall|i: int| 0 <= i < d implies #[trigger] xs[i] == (0 as real) * xs[i] + (0 as real)
        * xs[i] + c by {
    }
    lemma_total_combined(xs, xs, xs, 0 as real, 0 as real, c);
    let (t, m) = (total(xs), mean_value(val, x));
    lemma_is_quotient(t, n, c);
    let devs = deviations(val, x, m);
    assert forall|i: int| 0 <= i < devs.len() implies #[trigger] devs[i] == 0 as real by {
        assert(val(x[i]) - m == 0 as real);
        assert((0 as real) * (0 as real) == 0 as real);
    }
    lemma_total_zeros(devs);
    let (r, v) = (val(rstd_of(x, d)), variance(val, x));
    lemma_is_quotient(0 as real, n, 0 as real);
    let k = v + epsilon_value();
    assert((100_000 as real) * k == 1 as real);
    lemma_cancel(r * r, 100_000 as real, k);
    assert forall|i: int| 0 <= i < d implies values(val, normalized(x, w, b, d))[i] == values(
        val,
        b,
    )[i] by {
        let u = val(x[i]) - m;
        assert(u == 0 as real && r * u == r * (0 as real));
        let z = r * u;
        assert(z == 0 as real && z * val(w[i]) == (0 as real) * val(w[i]));
        assert(val(normalized(x, w, b, d)[i]) == z * val(w[i]) + val(b[i]));
    }
    assert(values(val, normalized(x, w, b, d)) =~= values(val, b));
}

/// Adding the same number to a whole row moves its mean by it, and keeps its
/// deviation and what it is normalised to.
pub proof fn law_row_shifted<E: Scalar>(
    val: spec_fn(E) -> real,
    x: Seq<E>,
    shifted: Seq<E>,
    c: real,
    w: Seq<E>,
    b: Seq<E>,
    d: usize,
)
    requires
        exact(val),
        x.len() == d,
        shifted.len() == d,
        d > 0,
        forall|i: int| 0 <= i < d ==> val(#[trigger] shifted[i]) == val(x[i]) + c,
    ensures
        val(mean_of(shifted, d)) == val(mean_of(x, d)) + c,
        val(rstd_of(shifted, d)) == val(rstd_of(x, d)),
        values(val, normalized(shifted, w, b, d)) == values(val, normalized(x, w, b, d)),
{
    let n = (d as int) as real;
    let (xs, ys) = (values(val, x), values(val, shifted));
    law_mean_and_deviation(val, x, d);
    law_mean_and_deviation(val, shifted, d);
    lemma_total_combined(xs, xs, ys, 1 as real, 0 as real, c);
    let (t, u) = (total(xs), total(ys));
    assert((t / n + c) * n == u) by {
        lemma_quotient(t, n);
        lemma_commute(t / n + c, n);
        lemma_distribute(n, t / n, c);
        lemma_commute(n, t / n);
        lemma_commute(n, c);
    }
    lemma_is_quotient(u, n, t / n + c);
    let (mean, moved) = (mean_value(val, x), mean_value(val, shifted));
    assert(deviations(val, shifted, moved) =~= deviations(val, x, mean));
    lemma_same_root(
        val(rstd_of(shifted, d)),
        val(rstd_of(x, d)),
        variance(val, x) + epsilon_value(),
    );
    assert(values(val, normalized(shifted, w, b, d)) =~= values(val, normalized(x, w, b, d)));
}

/// A row that is neither scaled nor moved afterwards adds up to zero, and its mean
/// square is the variance over the variance and epsilon, which is less than one.
pub proof fn law_row_centered<E: Scalar>(
    val: spec_fn(E) -> real,
    x: Seq<E>,
    w: Seq<E>,
    b: Seq<E>,
    d: usize,
)
    requires
        exact(val),
        x.len() == d,
        d > 0,
        forall|i: int| 0 <= i < d ==> val(#[trigger] w[i]) == 1 as real,
        forall|i: int| 0 <= i < d ==> val(#[trigger] b[i]) == 0 as real,
    ensures
        ({
            let y = values(val, normalized(x, w, b, d));
            let squares = Seq::new(d as nat, |i: int| y[i] * y[i]);
            let v = variance(val, x);
            let share = v / (v + epsilon_value());
            &&& total(y) == 0 as real
            &&& total(squares) / (d as int as real) == share
            &&& share < 1 as real
        }),
{
    let n = (d as int) as real;
    let xs = values(val, x);
    let y = values(val, normalized(x, w, b, d));
    let squares = Seq::new(d as nat, |i: int| y[i] * y[i]);
    let (m, r, e) = (mean_value(val, x), val(rstd_of(x, d)), epsilon_value());
    let v = variance(val, x);
    let devs = deviations(val, x, m);
    law_mean_and_deviation(val, x, d);
    let rm = -(r * m);
    assert forall|i: int| 0 <= i < d implies #[trigger] y[i] == r * xs[i] + (0 as real) * xs[i]
        + rm by {
        assert(val(w[i]) == 1 as real && val(b[i]) == 0 as real);
        let p = xs[i];
        lemma_distribute_back(r, p, m);
        assert(val(normalized(x, w, b, d)[i]) == r * (p - m) * val(w[i]) + val(b[i]));
        let z = r * (p - m);
        assert(z * val(w[i]) == z * (1 as real));
    }
    lemma_total_combined(xs, xs, y, r, 0 as real, rm);
    let t = total(xs);
    lemma_quotient(t, n);
    lemma_negate(r * m, n);
    lemma_associate(r, m, n);
    let rr = r * r;
    assert forall|i: int| 0 <= i < d implies #[trigger] squares[i] == rr * devs[i] + (0 as real)
        * devs[i] + (0 as real) by {
        let u = xs[i] - m;
        lemma_distribute_back(r, xs[i], m);
        assert(y[i] == r * u);
        lemma_square_of_product(r, u);
    }
    lemma_total_combined(devs, devs, squares, rr, 0 as real, 0 as real);
    let (s, q) = (total(devs), total(squares));
    assert(q == rr * s);
    lemma_quotient(s, n);
    lemma_share(v, e, rr, q, n);
}

/// Adding the same number to a whole row of the input keeps the output and the
/// inverse deviation, and moves the mean by it.
pub proof fn law_shift_invariant<E: Scalar>(
    val: spec_fn(E) -> real,
    x1: Content<E>,
    y1: Content<E>,
    mean1: Content<E>,
    rstd1: Content<E>,
    x2: Content<E>,
    y2: Content<E>,
    mean2: Content<E>,
    rstd2: Content<E>,
    w: Content<E>,
    b: Content<E>,
    r: int,
    c: real,
)
    requires
        exact(val),
        x1.holds_reals(),
        x2.holds_reals(),
        x1.dims.len() == 3,
        x2.dims == x1.dims,
        x1.dims[2] > 0,
        normalizes(x1, w, b, y1, mean1, rstd1),
        normalizes(x2, w, b, y2, mean2, rstd2),
        0 <= r < x1.dims[0] * x1.dims[1],
        forall|i: int|
            0 <= i < x1.dims[2] ==> val(
                #[trigger] row(x2.cells(), x1.dims[2] as int, r)[i],
            ) == val(row(x1.cells(), x1.dims[2] as int, r)[i]) + c,
    ensures
        values(val, row(y2.cells(), x1.dims[2] as int, r)) == values(
            val,
            row(y1.cells(), x1.dims[2] as int, r),
        ),
        val(rstd2.cells()[r]) == val(rstd1.cells()[r]),
        val(mean2.cells()[r]) == val(mean1.cells()[r]) + c,
{
    let d = x1.dims[2];
    lemma_size3(x1.dims);
    lemma_rows_apart(r, x1.dims[0] * x1.dims[1], d as int);
    law_row_shifted(
        val,
        row(x1.cells(), d as int, r),
        row(x2.cells(), d as int, r),
        c,
        w.cells(),
        b.cells(),
        d,
    );
}

/// The gradient of a row adds up to zero where mean is the mean of the row.
proof fn lemma_share_balanced<E: Scalar>(
    val: spec_fn(E) -> real,
    x: Seq<E>,
    w: Seq<E>,
    dy: Seq<E>,
    mean: E,
    rstd: E,
    d: usize,
)
    requires
        exact(val),
        x.len() == d,
        w.len() == d,
        dy.len() == d,
        d > 0,
        val(mean) == mean_value(val, x),
    ensures
        total(values(val, input_share(x, w, dy, mean, rstd, d))) == 0 as real,
{
    let n = (d as int) as real;
    let share = values(val, input_share(x, w, dy, mean, rstd, d));
    let norm = centered(x, mean, rstd);
    let dnorm = products(w, dy);
    let (xs, ns, ds) = (values(val, x), values(val, norm), values(val, dnorm));
    lemma_exact_sum(val, E::zero_spec(), dnorm);
    lemma_exact_sum(val, E::zero_spec(), products(norm, dnorm));
    let (m, r) = (val(mean), val(rstd));
    let a = total(ds) / n;
    let b = total(values(val, products(norm, dnorm))) / n;
    let rm = -(m * r);
    assert forall|i: int| 0 <= i < d implies #[trigger] ns[i] == r * xs[i] + (0 as real) * xs[i]
        + rm by {
        let p = xs[i];
        lemma_commute(p - m, r);
        lemma_distribute_back(r, p, m);
        lemma_commute(r, m);
    }
    lemma_total_combined(xs, xs, ns, r, 0 as real, rm);
    lemma_quotient(total(xs), n);
    let (t, k) = (total(xs), total(ns));
    lemma_negate(m * r, n);
    lemma_commute(m, r);
    lemma_associate(r, m, n);
    assert(k == 0 as real);
    let (rb, ra) = (-(r * b), -(r * a));
    assert forall|i: int| 0 <= i < d implies #[trigger] share[i] == r * ds[i] + rb * ns[i] + ra by {
        let (p, q) = (ds[i], ns[i]);
        lemma_distribute_back(r, p - a, q * b);
        lemma_distribute_back(r, p, a);
        lemma_negate(r * b, q);
        lemma_associate(r, b, q);
        lemma_commute(b, q);
    }
    lemma_total_combined(ds, ns, share, r, rb, ra);
    lemma_quotient(total(ds), n);
    let s = total(ds);
    lemma_negate(r * a, n);
    lemma_associate(r, a, n);
    assert(rb * k == rb * (0 as real));
}

/// Every row of the gradient of the input adds up to zero: the output does not
/// change where the same number is added to a whole row.
pub proof fn law_gradient_balanced<E: Scalar>(
    val: spec_fn(E) -> real,
    x: Content<E>,
    w: Content<E>,
    b: Content<E>,
    y: Content<E>,
    mean: Content<E>,
    rstd: Content<E>,
    dy: Content<E>,
    dx: Content<E>,
    r: int,
)
    requires
        exact(val),
        x.holds_reals(),
        x.dims.len() == 3,
        x.dims[2] > 0,
        w.holds_reals(),
        w.dims == seq![x.dims[2]],
        dy.holds_reals(),
        dy.dims == x.dims,
        normalizes(x, w, b, y, mean, rstd),
        returns_shares(x, w, dy, mean, rstd, dx),
        0 <= r < x.dims[0] * x.dims[1],
    ensures
        total(values(val, row(dx.cells(), x.dims[2] as int, r))) == 0 as real,
{
    let d = x.dims[2];
    let n = x.dims[0] * x.dims[1];
    lemma_size3(x.dims);
    lemma_size1(w.dims);
    lemma_rows_apart(r, n, d as int);
    let (input, slope) = (row(x.cells(), d as int, r), row(dy.cells(), d as int, r));
    let (m, s) = (mean.cells()[r], rstd.cells()[r]);
    law_mean_and_deviation(val, input, d);
    lemma_share_balanced(val, input, w.cells(), slope, m, s, d);
    let share = input_share(input, w.cells(), slope, m, s, d);
    let out = row(dx.cells(), d as int, r);
    assert forall|i: int| 0 <= i < d implies values(val, out)[i] == values(val, share)[i] by {
        assert(out[i] == zeros::<E>(d as int)[i].plus_spec(share[i]));
    }
    assert(values(val, out) =~= values(val, share));
}

/// Mean and inverse deviation of a row, told by what they satisfy: the mean times
/// the width is the sum of the row, and the inverse deviation is the positive
/// number whose square is the inverse of the mean squared distance to the mean and
/// one over a hundred thousand.
pub proof fn law_moments<E: Scalar>(
    val: spec_fn(E) -> real,
    x: Seq<E>,
    d: usize,
    m: real,
    s: real,
)
    requires
        exact(val),
        x.len() == d,
        d > 0,
        m * ((d as int) as real) == sum_of(d as int, |k: int| val(x[k])),
        s > 0 as real,
        s * s * (sum_of(d as int, |k: int| (val(x[k]) - m) * (val(x[k]) - m)) / ((d as int) as real)
            + (1 as real) / (100_000 as real)) == 1 as real,
    ensures
        val(mean_of(x, d)) == m,
        val(rstd_of(x, d)) == s,
{
    let n = (d as int) as real;
    law_mean_and_deviation(val, x, d);
    lemma_total_is_sum(values(val, x), |k: int| val(x[k]));
    lemma_is_quotient(total(values(val, x)), n, m);
    assert(mean_value(val, x) == m);
    lemma_total_is_sum(
        deviations(val, x, m),
        |k: int| (val(x[k]) - m) * (val(x[k]) - m),
    );
    lemma_same_root(val(rstd_of(x, d)), s, variance(val, x) + epsilon_value());
}

/// What a row adds to the gradient of the input: the inverse deviation times what
/// is left of the scaled gradient once its mean is taken away, and the normalised
/// row times the mean of the products of both.  Both means are sums over the
/// width.
pub proof fn law_share_values<E: Scalar>(
    val: spec_fn(E) -> real,
    x: Seq<E>,
    w: Seq<E>,
    dy: Seq<E>,
    mean: E,
    rstd: E,
    d: usize,
    i: int,
)
    requires
        exact(val),
        x.len() == d,
        w.len() == d,
        dy.len() == d,
        0 <= i < d,
    ensures
        ({
            let n = (d as int) as real;
            let (m, s) = (val(mean), val(rstd));
            let slopes = sum_of(d as int, |k: int| val(w[k]) * val(dy[k])) / n;
            let products = sum_of(
                d as int,
                |k: int| ((val(x[k]) - m) * s) * (val(w[k]) * val(dy[k])),
            ) / n;
            val(input_share(x, w, dy, mean, rstd, d)[i]) == s * (val(w[i]) * val(dy[i]) - slopes
                - ((val(x[i]) - m) * s) * products)
        }),
        val(scale_share(x, dy, mean, rstd)[i]) == ((val(x[i]) - val(mean)) * val(rstd)) * val(
            dy[i],
        ),
{
    let (m, s) = (val(mean), val(rstd));
    let norm = centered(x, mean, rstd);
    let dnorm = products(w, dy);
    lemma_exact_terms(val, E::zero_spec(), dnorm, |k: int| val(w[k]) * val(dy[k]));
    lemma_exact_terms(
        val,
        E::zero_spec(),
        products(norm, dnorm),
        |k: int| ((val(x[k]) - m) * s) * (val(w[k]) * val(dy[k])),
    );
}

/// What the layer gives for cell `i` of row `r`, forward and backward, in terms of
/// input, scale, shift and gradient of the output alone: `m` tells the mean and `s`
/// the inverse deviation of each row by what they satisfy.
pub proof fn law_pass_values<E: Scalar>(
    val: spec_fn(E) -> real,
    start: (LayerNorm<E>, State<E>),
    x: Content<E>,
    between: (LayerNorm<E>, State<E>),
    y: Content<E>,
    dy: Content<E>,
    end: (LayerNorm<E>, State<E>),
    dx: Content<E>,
    m: spec_fn(int) -> real,
    s: spec_fn(int) -> real,
    r: int,
    i: int,
)
    requires
        exact(val),
        start.1.consistent(),
        start.0.forward_accepts(seq![x], start.1),
        LayerNorm::<E>::forwards(start, seq![x], between, seq![y]),
        between.0.backward_accepts(seq![dy], between.1),
        LayerNorm::<E>::backwards(between, seq![dy], end, seq![dx]),
        0 <= i < x.dims[2],
        forall|q: int|
            #![trigger m(q)]
            #![trigger s(q)]
            0 <= q < x.dims[0] * x.dims[1] ==> {
                let d = x.dims[2] as int;
                let at = q * d;
                &&& m(q) * (d as real) == sum_of(d, |k: int| val(x.cells()[at + k]))
                &&& s(q) > 0 as real
                &&& s(q) * s(q) * (sum_of(
                    d,
                    |k: int| (val(x.cells()[at + k]) - m(q)) * (val(x.cells()[at + k]) - m(q)),
                ) / (d as real) + (1 as real) / (100_000 as real)) == 1 as real
            },
    ensures
        ({
            let d = x.dims[2] as int;
            let at = r * d;
            let w = start.1.tensors[start.0.w.id].cells();
            let b = start.1.tensors[start.0.b.id].cells();
            let norm = |k: int| (val(x.cells()[at + k]) - m(r)) * s(r);
            let slope = |k: int| val(w[k]) * val(dy.cells()[at + k]);
            &&& y.dims == x.dims && dx.dims == x.dims
            &&& 0 <= r < x.dims[0] * x.dims[1] ==> {
                &&& val(y.cells()[at + i]) == s(r) * (val(x.cells()[at + i]) - m(r)) * val(w[i])
                    + val(b[i])
                &&& val(dx.cells()[at + i]) == s(r) * (slope(i) - sum_of(d, slope) / (d as real)
                    - norm(i) * (sum_of(d, |k: int| norm(k) * slope(k)) / (d as real)))
            }
        }),
        ({
            let d = x.dims[2] as int;
            let n = x.dims[0] * x.dims[1];
            let (w, b) = (start.0.w.id, start.0.b.id);
            let (dw, db) = (end.1.weights[w].gradient, end.1.weights[b].gradient);
            &&& end.1.weights.contains_key(w) && end.1.weights.contains_key(b)
            &&& dw is Some && db is Some && dw != db
            &&& end.1.weights[w].names.contains(start.1.path + seq![':'] + "w"@)
            &&& end.1.weights[b].names.contains(start.1.path + seq![':'] + "b"@)
            &&& forall|v: u64|
                v != w && v != b ==> (end.1.weights.contains_key(v)
                    <==> #[trigger] start.1.weights.contains_key(v)) && (
                start.1.weights.contains_key(v) ==> end.1.weights[v] == start.1.weights[v])
            &&& val(end.1.tensors[dw->0].cells()[i]) == start.1.gradient_value(val, w, i) + sum_of(
                n,
                |q: int|
                    ((val(x.cells()[q * d + i]) - m(q)) * s(q)) * val(dy.cells()[q * d + i]),
            )
            &&& val(end.1.tensors[db->0].cells()[i]) == start.1.gradient_value(val, b, i) + sum_of(
                n,
                |q: int| val(dy.cells()[q * d + i]),
            )
            &&& forall|c: u64| #[trigger]
                start.1.tensors.contains_key(c) && dw != Some(c) && db != Some(c)
                    ==> end.1.tensors[c] == start.1.tensors[c]
        }),
{
    let d = x.dims[2];
    let di = d as int;
    let n = x.dims[0] * x.dims[1];
    let (w, b) = (start.0.w.id, start.0.b.id);
    let t1 = choose|took: Duration| between.1 == #[trigger] start.1.timed(took);
    let t2 = choose|took: Duration|
        end.1 == #[trigger] between.0.credited(dy, between.1).timed(took);
    let ready = between.0.registered(between.1);
    let (dw, db) = (ready.gradient_cell(w), ready.gradient_cell(b));
    start.1.law_gradients_apart("w"@, w, "b"@, b);
    assert(seq![x][0] == x && seq![y][0] == y && seq![dy][0] == dy && seq![dx][0] == dx);
    let (mean, rstd) = ((between.0.mean->0)@, (between.0.rstd->0)@);
    let (ws, bs) = (start.1.tensors[w].cells(), start.1.tensors[b].cells());
    lemma_size3(x.dims);
    lemma_size2(x.dims.take(2));
    lemma_size1(start.1.tensors[w].dims);
    lemma_size1(start.1.tensors[b].dims);
    assert forall|q: int| 0 <= q < n implies val(#[trigger] mean.cells()[q]) == m(q) && val(
        rstd.cells()[q],
    ) == s(q) by {
        let xs = row(x.cells(), di, q);
        let at = q * di;
        lemma_rows_apart(q, n, di);
        lemma_sum_same(di, |k: int| val(x.cells()[at + k]), |k: int| val(xs[k]));
        lemma_sum_same(
            di,
            |k: int| (val(x.cells()[at + k]) - m(q)) * (val(x.cells()[at + k]) - m(q)),
            |k: int| (val(xs[k]) - m(q)) * (val(xs[k]) - m(q)),
        );
        law_moments(val, xs, d, m(q), s(q));
        assert(rstd.cells()[q] == rstd_of(xs, d));
    }
    if 0 <= r < n {
        let (xs, ds) = (row(x.cells(), di, r), row(dy.cells(), di, r));
        let at = r * di;
        lemma_rows_apart(r, n, di);
        assert(val(mean.cells()[r]) == m(r));
        assert(row(y.cells(), di, r)[i] == y.cells()[at + i]);
        assert(normalized(xs, ws, bs, d)[i] == y.cells()[at + i]);
        law_share_values(val, xs, ws, ds, mean.cells()[r], rstd.cells()[r], d, i);
        let share = input_share(xs, ws, ds, mean.cells()[r], rstd.cells()[r], d);
        assert(row(dx.cells(), di, r)[i] == dx.cells()[at + i]);
        assert(dx.cells()[at + i] == zeros::<E>(di)[i].plus_spec(share[i]));
        let norm = |k: int| (val(x.cells()[at + k]) - m(r)) * s(r);
        let slope = |k: int| val(ws[k]) * val(dy.cells()[at + k]);
        lemma_sum_same(di, slope, |k: int| val(ws[k]) * val(ds[k]));
        lemma_sum_same(
            di,
            |k: int| norm(k) * slope(k),
            |k: int| ((val(xs[k]) - m(r)) * s(r)) * (val(ws[k]) * val(ds[k])),
        );
    }
    let (scales, shifts) = (between.0.scale_rows(dy), between.0.shift_rows(dy));
    let f = |q: int| ((val(x.cells()[q * di + i]) - m(q)) * s(q)) * val(dy.cells()[q * di + i]);
    let g = |q: int| val(dy.cells()[q * di + i]);
    let sc = Seq::new(scales.len(), |q: int| scales[q][i]);
    let sh = Seq::new(shifts.len(), |q: int| shifts[q][i]);
    assert forall|q: int| 0 <= q < n implies val(#[trigger] sc[q]) == f(q) && val(sh[q]) == g(
        q,
    ) by {
        lemma_rows_apart(q, n, di);
        let (xq, dq) = (row(x.cells(), di, q), row(dy.cells(), di, q));
        assert(val(mean.cells()[q]) == m(q));
        assert(xq[i] == x.cells()[q * di + i] && dq[i] == dy.cells()[q * di + i]);
        law_share_values(val, xq, ws, dq, mean.cells()[q], rstd.cells()[q], d, i);
    }
    assert forall|q: int| 0 <= q < n implies val(#[trigger] sh[q]) == g(q) by {
        assert(val(sc[q]) == f(q));
    }
    lemma_exact_terms(val, ready.tensors[dw].cells()[i], sc, f);
    lemma_exact_terms(val, ready.tensors[db].cells()[i], sh, g);
    assert(start.1.path.push(':') =~= start.1.path + seq![':']);
}

} // verus!
