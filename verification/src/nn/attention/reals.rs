//! What holds of attention over the reals.
use crate::exact::{
    exact, lemma_associate, lemma_commute, lemma_distribute_back, lemma_exact_sum, lemma_inverse,
    lemma_negate, lemma_total_combined, lemma_total_joined, lemma_total_sign, lemma_total_single,
    lemma_total_zeros, total, values,
};
use crate::nn::attention::backward::Operands;
use crate::nn::attention::forward::{
    attention, heads_of, in_walk, key, mixed, peak, query, scaling, score, scores, slice,
    softmax_weights, value, Heads,
};
use crate::nn::attention::{attends, operands};
use crate::scalar::Scalar;
use crate::tensor::{lemma_size4, Content};
use crate::vector::{exponentials, products, zeros};
use vstd::prelude::*;

verus! {

/// A score is the product of query and key over the root of the width of a head.
pub proof fn law_score_value<E: Scalar>(
    val: spec_fn(E) -> real,
    x: Seq<E>,
    g: Heads,
    b: int,
    h: int,
    t: int,
    s: int,
)
    requires
        exact(val),
        g.dh > 0,
    ensures
        val(score(x, g, b, h, t, s)) == total(
            values(val, products(query(x, g, b, t, h), key(x, g, b, s, h))),
        ) * val(scaling::<E>(g)),
        val(scaling::<E>(g)) > 0 as real,
        val(scaling::<E>(g)) * val(scaling::<E>(g)) * (g.dh as int as real) == 1 as real,
{
    lemma_exact_sum(
        val,
        E::empty_sum_spec(),
        products(query(x, g, b, t, h), key(x, g, b, s, h)),
    );
    assert(val(E::count_spec(g.dh)) == (g.dh as int) as real);
}

/// Weights are positive, each the share of its exponential in all of them, and add
/// up to one.
pub proof fn law_weights_add_up<E: Scalar>(val: spec_fn(E) -> real, xs: Seq<E>)
    requires
        exact(val),
        xs.len() > 0,
    ensures
        ({
            let exps = values(val, exponentials(xs, peak(E::bottom_spec(), xs)));
            let weights = values(val, softmax_weights(xs));
            &&& total(exps) > 0 as real
            &&& forall|i: int|
                0 <= i < xs.len() ==> #[trigger] weights[i] == exps[i] / total(exps) && weights[i]
                    > 0 as real
            &&& total(weights) == 1 as real
        }),
{
    let terms = exponentials(xs, peak(E::bottom_spec(), xs));
    let exps = values(val, terms);
    let weights = values(val, softmax_weights(xs));
    lemma_exact_sum(val, E::zero_spec(), terms);
    lemma_total_sign(exps);
    let t = total(exps);
    let inverse = (1 as real) / t;
    lemma_inverse(1 as real, t);
    assert forall|i: int| 0 <= i < xs.len() implies #[trigger] weights[i] == exps[i] / t
        && weights[i] > 0 as real by {
        let e = exps[i];
        assert(weights[i] == e * inverse);
        lemma_inverse(e, t);
        lemma_commute(e, inverse);
    }
    assert forall|i: int| 0 <= i < weights.len() implies #[trigger] weights[i] == inverse * exps[i]
        + (0 as real) * exps[i] + (0 as real) by {
        let e = exps[i];
        assert(weights[i] == e * inverse);
        lemma_commute(e, inverse);
    }
    lemma_total_combined(exps, exps, weights, inverse, 0 as real, 0 as real);
}

/// The weights that attending gives to all positions add up to one.
pub proof fn law_rows_of_weights<E: Scalar>(
    val: spec_fn(E) -> real,
    x: Content<E>,
    y: Content<E>,
    att: Content<E>,
    b: int,
    h: int,
    t: int,
)
    requires
        exact(val),
        attends(x, y, att),
        in_walk(heads_of(att.dims, x.dims), x.dims[0] as int, b, t, h),
    ensures
        ({
            let g = heads_of(att.dims, x.dims);
            let weights = slice(att.cells(), g.weights(b, h, t), g.n as int);
            &&& total(values(val, weights)) == 1 as real
            &&& total(values(val, weights.take(t + 1))) == 1 as real
        }),
{
    let g = heads_of(att.dims, x.dims);
    let n = g.n as int;
    let front = attention(x.cells(), g, b, h, t);
    let tail = zeros::<E>(n - t - 1);
    law_weights_add_up(val, scores(x.cells(), g, b, h, t));
    lemma_total_zeros(values(val, tail));
    lemma_total_joined(values(val, front), values(val, tail));
    let weights = slice(att.cells(), g.weights(b, h, t), n);
    assert(weights == front + tail);
    assert(values(val, weights) =~= values(val, front) + values(val, tail));
    assert(weights.take(t + 1) =~= front);
}

/// Every output is the sum of the values of the positions up to it, times their
/// weights.
pub proof fn law_mixed_value<E: Scalar>(
    val: spec_fn(E) -> real,
    x: Seq<E>,
    g: Heads,
    b: int,
    h: int,
    weights: Seq<E>,
    j: int,
)
    requires
        exact(val),
        0 <= j < g.dh,
    ensures
        val(mixed(x, g, b, h, weights)[j]) == total(
            Seq::new(weights.len(), |s: int| val(weights[s]) * val(value(x, g, b, s, h)[j])),
        ),
{
    let terms = Seq::new(weights.len(), |s: int| weights[s].times_spec(value(x, g, b, s, h)[j]));
    lemma_exact_sum(val, E::zero_spec(), terms);
    assert(values(val, terms) =~= Seq::new(
        weights.len(),
        |s: int| val(weights[s]) * val(value(x, g, b, s, h)[j]),
    ));
}

/// A product with a difference, for each of the two numbers that the difference
/// is taken from.
proof fn lemma_pull_apart(a: real, w: real, d: real)
    ensures
        a * (1 as real - w) * d == (1 as real) * (a * d) + (-w) * (a * d) + (0 as real),
        a * (0 as real - w) * d == (1 as real) * (0 as real) + (-w) * (a * d) + (0 as real),
{
    let p = a * d;
    lemma_negate(w, p);
    lemma_associate(a, 1 as real - w, d);
    lemma_commute(1 as real - w, d);
    lemma_distribute_back(d, 1 as real, w);
    lemma_distribute_back(a, d, d * w);
    lemma_associate(a, d, w);
    lemma_commute(p, w);
    lemma_associate(a, 0 as real - w, d);
    lemma_commute(0 as real - w, d);
    lemma_distribute_back(d, 0 as real, w);
    lemma_distribute_back(a, 0 as real, d * w);
}

/// A product with a difference, spread out.
proof fn lemma_spread(w: real, d: real, m: real, c: real)
    ensures
        (1 as real) * (w * d) + (-w) * m + (0 as real) * c == w * (d - m),
        (1 as real) * (w * d) + (-m) * w + (0 as real) == w * (d - m),
{
    lemma_distribute_back(w, d, m);
    lemma_negate(w, m);
    lemma_negate(m, w);
    lemma_commute(w, m);
}

impl<E: Scalar> Operands<E> {
    /// The weights that head `h` at position `t` gives to the positions up to it.
    pub open spec fn weight_values(
        self,
        val: spec_fn(E) -> real,
        b: int,
        h: int,
        t: int,
    ) -> Seq<real> {
        Seq::new((t + 1) as nat, |s: int| val(self.weight(b, h, t, s)))
    }

    /// What the gradients of its scores were before.
    pub open spec fn earlier_values(
        self,
        val: spec_fn(E) -> real,
        b: int,
        h: int,
        t: int,
    ) -> Seq<real> {
        Seq::new((t + 1) as nat, |s: int| val(self.dpreatt[self.g.weights(b, h, t) + s]))
    }

    /// The gradients of its scores.
    pub open spec fn dscore_values(
        self,
        val: spec_fn(E) -> real,
        b: int,
        h: int,
        t: int,
    ) -> Seq<real> {
        Seq::new((t + 1) as nat, |s: int| val(self.dscore(b, h, t, s)))
    }

    /// What the gradient of weight `u` adds to the gradient of score `s`.
    proof fn lemma_slope_value(
        self,
        val: spec_fn(E) -> real,
        b: int,
        h: int,
        t: int,
        u: int,
        s: int,
    )
        requires
            exact(val),
        ensures
            ({
                let q = val(self.weight(b, h, t, u)) * val(self.dweight(b, h, t, u));
                let own = if u == s {
                    q
                } else {
                    0 as real
                };
                val(self.slope(b, h, t, u, s).times_spec(self.dweight(b, h, t, u))) == (1 as real)
                    * own + (-val(self.weight(b, h, t, s))) * q + (0 as real)
            }),
    {
        lemma_pull_apart(
            val(self.weight(b, h, t, u)),
            val(self.weight(b, h, t, s)),
            val(self.dweight(b, h, t, u)),
        );
    }

    /// The gradient of one score: its weight times what the gradient of that
    /// weight is above the weighted mean of them all.
    pub proof fn law_dscore_value(
        self,
        val: spec_fn(E) -> real,
        b: int,
        h: int,
        t: int,
        s: int,
    )
        requires
            exact(val),
            0 <= s <= t,
        ensures
            ({
                let w = val(self.weight(b, h, t, s));
                let mean = total(
                    Seq::new(
                        (t + 1) as nat,
                        |u: int| val(self.weight(b, h, t, u)) * val(self.dweight(b, h, t, u)),
                    ),
                );
                val(self.dscore(b, h, t, s)) == val(self.dpreatt[self.g.weights(b, h, t) + s]) + w * (
                val(self.dweight(b, h, t, s)) - mean)
            }),
    {
        let n = (t + 1) as nat;
        let w = val(self.weight(b, h, t, s));
        let q = Seq::new(
            n,
            |u: int| val(self.weight(b, h, t, u)) * val(self.dweight(b, h, t, u)),
        );
        let own = Seq::new(
            n,
            |u: int|
                if u == s {
                    q[s]
                } else {
                    0 as real
                },
        );
        let terms = Seq::new(
            n,
            |u: int| self.slope(b, h, t, u, s).times_spec(self.dweight(b, h, t, u)),
        );
        let vs = values(val, terms);
        lemma_exact_sum(val, self.dpreatt[self.g.weights(b, h, t) + s], terms);
        assert forall|u: int| 0 <= u < vs.len() implies #[trigger] vs[u] == (1 as real) * own[u] + (
        -w) * q[u] + (0 as real) by {
            self.lemma_slope_value(val, b, h, t, u, s);
        }
        lemma_total_combined(own, q, vs, 1 as real, -w, 0 as real);
        lemma_total_single(own, s, q[s]);
        lemma_spread(w, val(self.dweight(b, h, t, s)), total(q), n as int as real);
    }

    /// Where the weights of a position add up to one, what is added to the
    /// gradients of its scores adds up to zero.
    pub proof fn law_dscores_balanced(
        self,
        val: spec_fn(E) -> real,
        b: int,
        h: int,
        t: int,
    )
        requires
            exact(val),
            0 <= t,
            total(self.weight_values(val, b, h, t)) == 1 as real,
        ensures
            total(self.dscore_values(val, b, h, t)) == total(self.earlier_values(val, b, h, t)),
    {
        let n = (t + 1) as nat;
        let ws = self.weight_values(val, b, h, t);
        let q = Seq::new(
            n,
            |u: int| val(self.weight(b, h, t, u)) * val(self.dweight(b, h, t, u)),
        );
        let m = total(q);
        let (earlier, later) = (self.earlier_values(val, b, h, t), self.dscore_values(val, b, h, t));
        let added = Seq::new(n, |s: int| (1 as real) * q[s] + (-m) * ws[s] + (0 as real));
        lemma_total_combined(q, ws, added, 1 as real, -m, 0 as real);
        assert forall|s: int| 0 <= s < later.len() implies #[trigger] later[s] == (1 as real)
            * earlier[s] + (1 as real) * added[s] + (0 as real) by {
            self.law_dscore_value(val, b, h, t, s);
            let (w, d) = (ws[s], val(self.dweight(b, h, t, s)));
            assert(q[s] == w * d);
            lemma_spread(w, d, m, 0 as real);
        }
        lemma_total_combined(earlier, added, later, 1 as real, 1 as real, 0 as real);
        let (c, a) = (n as int as real, total(added));
        assert(a == (1 as real) * m + (-m) * (1 as real) + (0 as real) * c);
    }
}

/// Forward, then backward: the gradients of the scores of a position add up to
/// zero.
pub proof fn law_score_gradients_balanced<E: Scalar>(
    val: spec_fn(E) -> real,
    x: Content<E>,
    y: Content<E>,
    att: Content<E>,
    dy: Content<E>,
    b: int,
    h: int,
    t: int,
)
    requires
        exact(val),
        attends(x, y, att),
        in_walk(heads_of(att.dims, x.dims), x.dims[0] as int, b, t, h),
    ensures
        total(operands(x, dy, att).dscore_values(val, b, h, t)) == 0 as real,
{
    let o = operands(x, dy, att);
    let g = o.g;
    let n = g.n as int;
    lemma_size4(att.dims);
    g.lemma_weights(b, h, t, x.dims[0] as int);
    law_rows_of_weights(val, x, y, att, b, h, t);
    let weights = slice(att.cells(), g.weights(b, h, t), n);
    assert(o.weight_values(val, b, h, t) =~= values(val, weights.take(t + 1)));
    o.law_dscores_balanced(val, b, h, t);
    lemma_total_zeros(o.earlier_values(val, b, h, t));
}

} // verus!
