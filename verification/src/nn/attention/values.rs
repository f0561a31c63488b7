//! What attention comes to over the reals, cell by cell.
use crate::exact::{
    exact, law_sum_grows, lemma_associate, lemma_cancel, lemma_commute, lemma_exact_terms,
    lemma_exp_order, lemma_exp_sum, lemma_is_quotient, lemma_positive, lemma_quotient, lemma_raised,
    lemma_sum_plus, lemma_sum_positive, lemma_sum_same, lemma_sum_scaled, lemma_total_is_sum,
    smooth, sum_of,
};
use crate::nn::attention::backward::{operands_of, Operands};
use crate::nn::attention::forward::{
    attended, attention, heads_of, in_walk, key, mixed, peak, query, scaling, score, scores, slice,
    softmax_weights, value, Heads,
};
use crate::nn::attention::{attends, operands, Attention};
use crate::nn::layer_norm_laws::lemma_same_root;
use crate::nn::NeuralNetwork;
use crate::scalar::{cell2, Scalar};
use crate::state::State;
use crate::tensor::{lemma_size3, lemma_size4, Content, Tensor};
use crate::vector::{exponentials, lemma_place_bound, products, zeros};
use vstd::prelude::*;

verus! {

/// The greatest of numbers above the bottom is one of them, and none is greater.
proof fn lemma_peak<E: Scalar>(val: spec_fn(E) -> real, xs: Seq<E>) -> (t: int)
    requires
        smooth(val),
        xs.len() > 0,
        forall|k: int| 0 <= k < xs.len() ==> #[trigger] xs[k] != E::bottom_spec(),
    ensures
        0 <= t < xs.len(),
        peak(E::bottom_spec(), xs) != E::bottom_spec(),
        val(peak(E::bottom_spec(), xs)) == val(xs[t]),
        forall|k: int|
            0 <= k < xs.len() ==> val(#[trigger] xs[k]) <= val(peak(E::bottom_spec(), xs)),
    decreases xs.len(),
{
    let front = xs.drop_last();
    let (a, b) = (peak(E::bottom_spec(), front), xs.last());
    let top = peak(E::bottom_spec(), xs);
    assert(top == a.raised_spec(b));
    assert(b == xs[xs.len() - 1]);
    lemma_raised(val, a, b);
    if xs.len() == 1 {
        assert(a == E::bottom_spec());
        0
    } else {
        let t = lemma_peak(val, front);
        assert forall|k: int| 0 <= k < xs.len() implies val(#[trigger] xs[k]) <= val(top) by {
            if k < xs.len() - 1 {
                assert(xs[k] == front[k]);
            }
        }
        if val(top) == val(a) {
            t
        } else {
            xs.len() - 1
        }
    }
}

/// A weight is the share of the exponential of its own score in the exponentials
/// of all scores.
pub proof fn law_softmax_values<E: Scalar>(val: spec_fn(E) -> real, xs: Seq<E>, i: int)
    requires
        exact(val),
        smooth(val),
        0 <= i < xs.len(),
    ensures
        softmax_weights(xs).len() == xs.len(),
        sum_of(xs.len() as int, |k: int| val(xs[k].exp_spec())) > 0 as real,
        val(softmax_weights(xs)[i]) * sum_of(
            xs.len() as int,
            |k: int| val(xs[k].exp_spec()),
        ) == val(xs[i].exp_spec()),
{
    let n = xs.len() as int;
    let top = peak(E::bottom_spec(), xs);
    let f = |k: int| val(xs[k].minus_spec(top).exp_spec());
    let g = |k: int| val(xs[k].exp_spec());
    let e = val(top.exp_spec());
    let scaled = |k: int| e * f(k);
    lemma_below_peak(val, xs, i);
    assert forall|k: int| 0 <= k < n implies #[trigger] g(k) == scaled(k) by {
        lemma_exp_sum(val, top, xs[k].minus_spec(top), xs[k]);
    }
    lemma_sum_same(n, g, scaled);
    lemma_sum_scaled(n, e, f);
    lemma_sum_positive(n, f);
    let (p, s) = (val(softmax_weights(xs)[i]), sum_of(n, f));
    lemma_positive(e, s);
    lemma_quotient(f(i), s);
    lemma_commute(e, s);
    lemma_associate(p, s, e);
    lemma_commute(p * s, e);
    assert(g(i) == scaled(i));
    assert(sum_of(n, scaled) == e * s);
}

/// A weight is the exponential of how far its score is below the peak, over the sum
/// of these exponentials.
proof fn lemma_below_peak<E: Scalar>(val: spec_fn(E) -> real, xs: Seq<E>, i: int)
    requires
        exact(val),
        0 <= i < xs.len(),
    ensures
        ({
            let top = peak(E::bottom_spec(), xs);
            let f = |k: int| val(xs[k].minus_spec(top).exp_spec());
            val(softmax_weights(xs)[i]) == f(i) / sum_of(xs.len() as int, f)
        }),
{
    let top = peak(E::bottom_spec(), xs);
    let f = |k: int| val(xs[k].minus_spec(top).exp_spec());
    let exps = exponentials(xs, top);
    lemma_exact_terms(val, E::zero_spec(), exps, f);
    lemma_sum_positive(xs.len() as int, f);
    let s = sum_of(xs.len() as int, f);
    let inverse = (1 as real) / s;
    assert(val(softmax_weights(xs)[i]) == f(i) * inverse);
    lemma_quotient(1 as real, s);
    lemma_associate(f(i), inverse, s);
    lemma_is_quotient(f(i), s, f(i) * inverse);
}

/// Every weight belongs to its own score: the exponential of how far the score is
/// below `top`, over the sum of these exponentials.  `top` is the greatest of the
/// scores: the one at `t`.
pub proof fn law_weights_below_top<E: Scalar>(
    val: spec_fn(E) -> real,
    xs: Seq<E>,
) -> (greatest: (int, E))
    requires
        exact(val),
        smooth(val),
        xs.len() > 0,
        forall|k: int| 0 <= k < xs.len() ==> #[trigger] xs[k] != E::bottom_spec(),
    ensures
        ({
            let (t, top) = greatest;
            &&& 0 <= t < xs.len() && val(top) == val(xs[t])
            &&& forall|k: int| 0 <= k < xs.len() ==> val(#[trigger] xs[k]) <= val(top)
            &&& forall|i: int|
                0 <= i < xs.len() ==> val(#[trigger] softmax_weights(xs)[i]) == val(
                    xs[i].minus_spec(top).exp_spec(),
                ) / sum_of(xs.len() as int, |k: int| val(xs[k].minus_spec(top).exp_spec()))
        }),
{
    let top = peak(E::bottom_spec(), xs);
    let f = |k: int| val(xs[k].minus_spec(top).exp_spec());
    assert forall|i: int| 0 <= i < xs.len() implies val(#[trigger] softmax_weights(xs)[i]) == val(
        xs[i].minus_spec(top).exp_spec(),
    ) / sum_of(xs.len() as int, f) by {
        lemma_below_peak(val, xs, i);
    }
    (lemma_peak(val, xs), top)
}

/// What a score stands for, from the cells: the products of query and key, added
/// up, times the inverse root of the width of a head.
proof fn lemma_score<E: Scalar>(
    val: spec_fn(E) -> real,
    x: Seq<E>,
    g: Heads,
    batch: int,
    b: int,
    h: int,
    t: int,
    s: int,
    c: real,
)
    requires
        exact(val),
        g.wf(),
        g.dh > 0,
        x.len() == batch * g.n * g.d3,
        in_walk(g, batch, b, t, h),
        0 <= s < g.n,
        c > 0 as real,
        c * c * ((g.dh as int) as real) == 1 as real,
    ensures
        val(score(x, g, b, h, t, s)) == sum_of(
            g.dh as int,
            |j: int| val(x[(b * g.n + t) * g.d3 + h * g.dh + j]) * val(
                x[(b * g.n + s) * g.d3 + g.d + h * g.dh + j],
            ),
        ) * c,
        val(scaling::<E>(g)) == c,
{
    let f = |j: int| val(x[(b * g.n + t) * g.d3 + h * g.dh + j]) * val(
        x[(b * g.n + s) * g.d3 + g.d + h * g.dh + j],
    );
    g.lemma_part(b, t, 0, h, batch);
    g.lemma_part(b, s, 1, h, batch);
    let (q, k) = (query(x, g, b, t, h), key(x, g, b, s, h));
    assert(q.len() == g.dh && k.len() == g.dh);
    let terms = products(q, k);
    assert forall|j: int| 0 <= j < terms.len() implies val(#[trigger] terms[j]) == f(j) by {
        assert(q[j] == x[(b * g.n + t) * g.d3 + h * g.dh + j]);
        assert(k[j] == x[(b * g.n + s) * g.d3 + g.d + h * g.dh + j]);
    }
    lemma_exact_terms(val, E::empty_sum_spec(), terms, f);
    assert(val(E::count_spec(g.dh)) == (g.dh as int) as real);
    lemma_same_root(val(scaling::<E>(g)), c, (g.dh as int) as real);
}

/// What attending leaves behind for head `h` at position `t` of sequence `b`, from
/// the cells.  A score is the product of query and key over the root of the width
/// of a head, a weight is the share of the exponential of its score, and an output
/// adds up the values of the positions up to `t`, times their weights.  Behind `t`
/// the weights are zero and the scores stay as they were.
pub proof fn law_attended_values<E: Scalar>(
    val: spec_fn(E) -> real,
    y: Seq<E>,
    preatt: Seq<E>,
    att: Seq<E>,
    x: Seq<E>,
    preatt_before: Seq<E>,
    g: Heads,
    batch: int,
    b: int,
    t: int,
    h: int,
    s: int,
    j: int,
    c: real,
)
    requires
        exact(val),
        smooth(val),
        g.wf(),
        x.len() == batch * g.n * g.d3,
        y.len() == batch * g.n * g.d,
        att.len() == batch * g.nh * g.n * g.n,
        preatt.len() == att.len(),
        preatt_before.len() == att.len(),
        in_walk(g, batch, b, t, h),
        0 <= s < g.n,
        0 <= j < g.dh,
        attended(y, preatt, att, x, preatt_before, g, b, t, h),
        c > 0 as real,
        c * c * ((g.dh as int) as real) == 1 as real,
    ensures
        ({
            let (n, nh, d3) = (g.n as int, g.nh as int, g.d3 as int);
            let (d, dh) = (d3 / 3, d3 / 3 / nh);
            let at = ((b * nh + h) * n + t) * n;
            &&& s <= t ==> val(preatt[at + s]) == sum_of(
                dh,
                |i: int| val(x[(b * n + t) * d3 + h * dh + i]) * val(
                    x[(b * n + s) * d3 + d + h * dh + i],
                ),
            ) * c
            &&& s <= t ==> val(att[at + s]) * sum_of(
                t + 1,
                |u: int| val(preatt[at + u].exp_spec()),
            ) == val(preatt[at + s].exp_spec())
            &&& s > t ==> preatt[at + s] == preatt_before[at + s]
            &&& s > t ==> att[at + s] == E::zero_spec()
            &&& val(y[(b * n + t) * d + h * dh + j]) == sum_of(
                t + 1,
                |u: int| val(att[at + u]) * val(x[(b * n + u) * d3 + 2 * d + h * dh + j]),
            )
        }),
{
    let (n, nh, d3) = (g.n as int, g.nh as int, g.d3 as int);
    let (d, dh) = (d3 / 3, d3 / 3 / nh);
    assert(g.d == d && g.dh == dh);
    let at = ((b * nh + h) * n + t) * n;
    g.lemma_weights(b, h, t, batch);
    g.lemma_out(b, t, h, batch);
    let ss = scores(x, g, b, h, t);
    let ws = attention(x, g, b, h, t);
    let (pre, wts) = (slice(preatt, at, n), slice(att, at, n));
    let kept = slice(preatt_before, at + t + 1, n - t - 1);
    assert(pre == ss + kept);
    assert(wts == ws + zeros::<E>(n - t - 1));
    assert(pre[s] == preatt[at + s] && wts[s] == att[at + s]);
    law_softmax_values(val, ss, 0);
    assert forall|u: int| 0 <= u <= t implies #[trigger] preatt[at + u] == ss[u] && att[at + u]
        == ws[u] by {
        assert(pre[u] == preatt[at + u] && wts[u] == att[at + u]);
    }
    let e = |u: int| val(preatt[at + u].exp_spec());
    if s <= t {
        lemma_score(val, x, g, batch, b, h, t, s, c);
        assert(preatt[at + s] == ss[s]);
        law_softmax_values(val, ss, s);
        lemma_sum_same(t + 1, e, |u: int| val(ss[u].exp_spec()));
    } else {
        assert(pre[s] == kept[s - t - 1]);
    }
    let out = slice(y, g.out(b, t, h), dh);
    assert(out == mixed(x, g, b, h, ws));
    assert(out[j] == y[(b * n + t) * d + h * dh + j]);
    let terms = Seq::new(ws.len(), |u: int| ws[u].times_spec(value(x, g, b, u, h)[j]));
    let f = |u: int| val(att[at + u]) * val(x[(b * n + u) * d3 + 2 * d + h * dh + j]);
    assert forall|u: int| 0 <= u < terms.len() implies val(#[trigger] terms[u]) == f(u) by {
        g.lemma_part(b, u, 2, h, batch);
        assert(value(x, g, b, u, h)[j] == x[(b * n + u) * d3 + 2 * d + h * dh + j]);
        assert(att[at + u] == ws[u]) by {
            assert(preatt[at + u] == ss[u]);
        }
    }
    lemma_exact_terms(val, E::zero_spec(), terms, f);
}

/// What attending gives for head `h` at position `t` of sequence `b`, from the cells
/// of the input alone: `scored` tells the scores of the positions up to `t` by what
/// they satisfy.
pub proof fn law_attends_values<E: Scalar>(
    val: spec_fn(E) -> real,
    x: Content<E>,
    y: Content<E>,
    att: Content<E>,
    b: int,
    t: int,
    h: int,
    s: int,
    j: int,
    c: real,
    scored: spec_fn(int) -> E,
)
    requires
        exact(val),
        smooth(val),
        x.holds_reals(),
        x.dims.len() == 3,
        att.dims[1] > 0,
        attends(x, y, att),
        0 <= b < x.dims[0],
        0 <= t < x.dims[1],
        0 <= s < x.dims[1],
        0 <= h < att.dims[1],
        0 <= j < (x.dims[2] as int) / 3 / (att.dims[1] as int),
        c > 0 as real,
        c * c * (((x.dims[2] as int) / 3 / (att.dims[1] as int)) as real) == 1 as real,
        forall|u: int|
            0 <= u <= t ==> val(#[trigger] scored(u)) == ({
                let (n, nh, d3) = (x.dims[1] as int, att.dims[1] as int, x.dims[2] as int);
                let (d, dh) = (d3 / 3, d3 / 3 / nh);
                sum_of(
                    dh,
                    |i: int| val(x.cells()[(b * n + t) * d3 + h * dh + i]) * val(
                        x.cells()[(b * n + u) * d3 + d + h * dh + i],
                    ),
                ) * c
            }),
    ensures
        ({
            let (n, nh, d3) = (x.dims[1] as int, att.dims[1] as int, x.dims[2] as int);
            let (d, dh) = (d3 / 3, d3 / 3 / nh);
            let at = ((b * nh + h) * n + t) * n;
            &&& y.dims == seq![x.dims[0], x.dims[1], (x.dims[2] / 3) as usize]
            &&& s <= t ==> val(att.cells()[at + s]) * sum_of(
                t + 1,
                |u: int| val(scored(u).exp_spec()),
            ) == val(scored(s).exp_spec())
            &&& s > t ==> att.cells()[at + s] == E::zero_spec()
            &&& val(y.cells()[(b * n + t) * d + h * dh + j]) == sum_of(
                t + 1,
                |u: int|
                    val(att.cells()[at + u]) * val(
                        x.cells()[(b * n + u) * d3 + 2 * d + h * dh + j],
                    ),
            )
        }),
{
    let g = heads_of(att.dims, x.dims);
    let batch = x.dims[0] as int;
    let (n, nh, d3) = (g.n as int, g.nh as int, g.d3 as int);
    let (d, dh) = (d3 / 3, d3 / 3 / nh);
    assert(g.d == d && g.dh == dh);
    let at = ((b * nh + h) * n + t) * n;
    lemma_size3(x.dims);
    lemma_size3(y.dims);
    lemma_size4(att.dims);
    g.lemma_weights(b, h, t, batch);
    g.lemma_out(b, t, h, batch);
    let ss = scores(x.cells(), g, b, h, t);
    let ws = attention(x.cells(), g, b, h, t);
    let (ys, atts, xs) = (y.cells(), att.cells(), x.cells());
    assert(g.weights(b, h, t) == at && g.out(b, t, h) == (b * n + t) * d + h * dh);
    let wts = slice(atts, at, n);
    assert(wts == ws + zeros::<E>(n - t - 1));
    assert(wts[s] == atts[at + s]);
    law_softmax_values(val, ss, 0);
    let (e, f) = (|u: int| val(scored(u).exp_spec()), |u: int| val(ss[u].exp_spec()));
    assert forall|u: int| 0 <= u < t + 1 implies #[trigger] e(u) == f(u) by {
        lemma_score(val, xs, g, batch, b, h, t, u, c);
        assert(val(ss[u]) == val(scored(u)));
        lemma_exp_order(val, ss[u], scored(u));
    }
    lemma_sum_same(t + 1, e, f);
    if s <= t {
        law_softmax_values(val, ss, s);
        assert(e(s) == f(s));
    }
    let out = slice(ys, g.out(b, t, h), dh);
    assert(out == mixed(xs, g, b, h, ws));
    assert(out[j] == ys[(b * n + t) * d + h * dh + j]);
    let terms = Seq::new(ws.len(), |u: int| ws[u].times_spec(value(xs, g, b, u, h)[j]));
    let v = |u: int| val(atts[at + u]) * val(xs[(b * n + u) * d3 + 2 * d + h * dh + j]);
    assert forall|u: int| 0 <= u < terms.len() implies val(#[trigger] terms[u]) == v(u) by {
        g.lemma_part(b, u, 2, h, batch);
        assert(value(xs, g, b, u, h)[j] == xs[(b * n + u) * d3 + 2 * d + h * dh + j]);
        assert(wts[u] == atts[at + u] && wts[u] == ws[u]);
    }
    lemma_exact_terms(val, E::zero_spec(), terms, v);
}

/// Columns of the output that belong to no head are zero.
pub proof fn law_columns_without_head<E: Scalar>(
    x: Content<E>,
    y: Content<E>,
    att: Content<E>,
    b: int,
    t: int,
    i: int,
)
    requires
        att.dims[1] > 0,
        attends(x, y, att),
        0 <= b < x.dims[0],
        0 <= t < x.dims[1],
        ({
            let (nh, d) = (att.dims[1] as int, x.dims[2] as int / 3);
            nh * (d / nh) <= i < d
        }),
    ensures
        y.cells()[(b * x.dims[1] + t) * (x.dims[2] as int / 3) + i] == E::zero_spec(),
{
    let g = heads_of(att.dims, x.dims);
    lemma_place_bound(b, t, x.dims[0] as int, g.n as int);
    assert(cell2(y.cells(), g.d as int, b * g.n + t, i) == E::zero_spec());
}

/// The operands of the gradient are the tensors that it is taken from: the width of
/// an output row is a third of that of an input row, and each head has its part of it.
pub proof fn law_operands<E: Scalar>(
    dpreatt: &Tensor<E>,
    datt: &Tensor<E>,
    dy: &Tensor<E>,
    x: &Tensor<E>,
    att: &Tensor<E>,
)
    requires
        x.dims().len() == 3,
        att.dims().len() == 4,
        att.dims()[1] > 0,
    ensures
        ({
            let o = operands_of(dpreatt, datt, dy, x, att);
            &&& o.x == x@.cells()
            &&& o.dy == dy@.cells()
            &&& o.att == att@.cells()
            &&& o.datt == datt@.cells()
            &&& o.dpreatt == dpreatt@.cells()
            &&& o.g.n == x@.dims[1]
            &&& o.g.nh == att@.dims[1]
            &&& o.g.d3 == x@.dims[2]
            &&& o.g.d == x@.dims[2] as int / 3
            &&& o.g.dh == x@.dims[2] as int / 3 / (att@.dims[1] as int)
        }),
{
}

impl<E: Scalar> Operands<E> {
    /// Whether the operands have the lengths that the heads ask for.
    pub open spec fn sized(self, batch: int) -> bool {
        let g = self.g;
        &&& g.wf()
        &&& self.x.len() == batch * g.n * g.d3
        &&& self.dy.len() == batch * g.n * g.d
        &&& self.att.len() == batch * g.nh * g.n * g.n
        &&& self.datt.len() == self.att.len()
        &&& self.dpreatt.len() == self.att.len()
    }

    /// What the gradient of a weight stands for, from the cells.
    proof fn lemma_dweight(
        self,
        val: spec_fn(E) -> real,
        batch: int,
        b: int,
        h: int,
        t: int,
        s: int,
    )
        requires
            exact(val),
            self.sized(batch),
            in_walk(self.g, batch, b, t, h),
            0 <= s < self.g.n,
        ensures
            ({
                let (n, nh, d3) = (self.g.n as int, self.g.nh as int, self.g.d3 as int);
                let (d, dh) = (d3 / 3, d3 / 3 / nh);
                let at = ((b * nh + h) * n + t) * n;
                val(self.dweight(b, h, t, s)) == val(self.datt[at + s]) + sum_of(
                    dh,
                    |i: int| val(self.x[(b * n + s) * d3 + 2 * d + h * dh + i]) * val(
                        self.dy[(b * n + t) * d + h * dh + i],
                    ),
                )
            }),
    {
        let g = self.g;
        let (n, nh, d3) = (g.n as int, g.nh as int, g.d3 as int);
        let (d, dh) = (d3 / 3, d3 / 3 / nh);
        g.lemma_part(b, s, 2, h, batch);
        g.lemma_out(b, t, h, batch);
        let (v, share) = (value(self.x, g, b, s, h), self.share(b, t, h));
        let terms = products(v, share);
        let f = |i: int| val(self.x[(b * n + s) * d3 + 2 * d + h * dh + i]) * val(
            self.dy[(b * n + t) * d + h * dh + i],
        );
        assert forall|i: int| 0 <= i < terms.len() implies val(#[trigger] terms[i]) == f(i) by {
            assert(v[i] == self.x[(b * n + s) * d3 + 2 * d + h * dh + i]);
            assert(share[i] == self.dy[(b * n + t) * d + h * dh + i]);
        }
        lemma_exact_terms(val, self.datt[g.weights(b, h, t) + s], terms, f);
    }

    /// What going backward leaves in the gradients of weights and scores for head
    /// `h` at position `t` of sequence `b`, from the cells.  To the gradient of a
    /// weight, the product of the value and the gradient of the output is added, and
    /// to the gradient of a score its weight times what the gradient of that weight
    /// is above the weighted mean of them all.  Behind `t` both stay as they were.
    pub proof fn law_weighed_values(
        self,
        val: spec_fn(E) -> real,
        batch: int,
        datt: Seq<E>,
        dpreatt: Seq<E>,
        b: int,
        h: int,
        t: int,
        s: int,
    )
        requires
            exact(val),
            self.sized(batch),
            datt.len() == self.att.len(),
            dpreatt.len() == self.att.len(),
            in_walk(self.g, batch, b, t, h),
            0 <= s < self.g.n,
            self.weighed(datt, dpreatt, b, t, h),
        ensures
            ({
                let (n, nh, d3) = (self.g.n as int, self.g.nh as int, self.g.d3 as int);
                let (d, dh) = (d3 / 3, d3 / 3 / nh);
                let at = ((b * nh + h) * n + t) * n;
                &&& s <= t ==> val(datt[at + s]) == val(self.datt[at + s]) + sum_of(
                    dh,
                    |i: int| val(self.x[(b * n + s) * d3 + 2 * d + h * dh + i]) * val(
                        self.dy[(b * n + t) * d + h * dh + i],
                    ),
                )
                &&& s <= t ==> val(dpreatt[at + s]) == val(self.dpreatt[at + s]) + val(
                    self.att[at + s],
                ) * (val(datt[at + s]) - sum_of(
                    t + 1,
                    |u: int| val(self.att[at + u]) * val(datt[at + u]),
                ))
                &&& s > t ==> datt[at + s] == self.datt[at + s]
                &&& s > t ==> dpreatt[at + s] == self.dpreatt[at + s]
            }),
    {
        let g = self.g;
        let n = g.n as int;
        let at = g.weights(b, h, t);
        g.lemma_weights(b, h, t, batch);
        let (one, two) = (slice(datt, at, n), slice(dpreatt, at, n));
        assert(one[s] == datt[at + s] && two[s] == dpreatt[at + s]);
        if s <= t {
            self.lemma_dweight(val, batch, b, h, t, s);
            self.law_dscore_value(val, b, h, t, s);
            let terms = Seq::new(
                (t + 1) as nat,
                |u: int| val(self.weight(b, h, t, u)) * val(self.dweight(b, h, t, u)),
            );
            let f = |u: int| val(self.att[at + u]) * val(datt[at + u]);
            assert forall|u: int| 0 <= u < terms.len() implies #[trigger] terms[u] == f(u) by {
                assert(one[u] == datt[at + u]);
            }
            lemma_total_is_sum(terms, f);
        } else {
            assert(one[s] == slice(self.datt, at + t + 1, n - t - 1)[s - t - 1]);
            assert(two[s] == slice(self.dpreatt, at + t + 1, n - t - 1)[s - t - 1]);
        }
    }

    /// What the gradient of a score stands for, from the cells.
    pub open spec fn score_gradient(
        self,
        val: spec_fn(E) -> real,
        b: int,
        h: int,
        t: int,
        s: int,
    ) -> real {
        let (n, nh, d3) = (self.g.n as int, self.g.nh as int, self.g.d3 as int);
        let (d, dh) = (d3 / 3, d3 / 3 / nh);
        let at = ((b * nh + h) * n + t) * n;
        let w = |u: int| val(self.att[at + u]);
        let dw = |u: int|
            val(self.datt[at + u]) + sum_of(
                dh,
                |i: int| val(self.x[(b * n + u) * d3 + 2 * d + h * dh + i]) * val(
                    self.dy[(b * n + t) * d + h * dh + i],
                ),
            );
        val(self.dpreatt[at + s]) + w(s) * (dw(s) - sum_of(t + 1, |u: int| w(u) * dw(u)))
    }

    /// The gradient of a score is what the cells say.
    proof fn lemma_dscore(
        self,
        val: spec_fn(E) -> real,
        batch: int,
        b: int,
        h: int,
        t: int,
        s: int,
    )
        requires
            exact(val),
            self.sized(batch),
            in_walk(self.g, batch, b, t, h),
            0 <= s <= t,
        ensures
            val(self.dscore(b, h, t, s)) == self.score_gradient(val, b, h, t, s),
    {
        let (n, nh, d3) = (self.g.n as int, self.g.nh as int, self.g.d3 as int);
        let (d, dh) = (d3 / 3, d3 / 3 / nh);
        let at = ((b * nh + h) * n + t) * n;
        let w = |u: int| val(self.att[at + u]);
        let dw = |u: int|
            val(self.datt[at + u]) + sum_of(
                dh,
                |i: int| val(self.x[(b * n + u) * d3 + 2 * d + h * dh + i]) * val(
                    self.dy[(b * n + t) * d + h * dh + i],
                ),
            );
        self.law_dscore_value(val, b, h, t, s);
        self.lemma_dweight(val, batch, b, h, t, s);
        let terms = Seq::new(
            (t + 1) as nat,
            |u: int| val(self.weight(b, h, t, u)) * val(self.dweight(b, h, t, u)),
        );
        let f = |u: int| w(u) * dw(u);
        assert forall|u: int| 0 <= u < terms.len() implies #[trigger] terms[u] == f(u) by {
            self.lemma_dweight(val, batch, b, h, t, u);
        }
        lemma_total_is_sum(terms, f);
    }

    /// What position `s` adds to the gradients for head `h` at position `t`, from the
    /// cells: to that of the query, the key times the gradient of the score, and to
    /// that of the key, the query times it, both over the root of the width of a
    /// head; to that of the value, the weight times the gradient of the output.
    pub proof fn law_share_values(
        self,
        val: spec_fn(E) -> real,
        batch: int,
        b: int,
        h: int,
        t: int,
        s: int,
        j: int,
        c: real,
    )
        requires
            exact(val),
            self.sized(batch),
            in_walk(self.g, batch, b, t, h),
            0 <= s <= t,
            0 <= j < self.g.dh,
            c > 0 as real,
            c * c * ((self.g.dh as int) as real) == 1 as real,
        ensures
            ({
                let (n, nh, d3) = (self.g.n as int, self.g.nh as int, self.g.d3 as int);
                let (d, dh) = (d3 / 3, d3 / 3 / nh);
                let at = ((b * nh + h) * n + t) * n;
                let w = |u: int| val(self.att[at + u]);
                let dw = |u: int|
                    val(self.datt[at + u]) + sum_of(
                        dh,
                        |i: int| val(self.x[(b * n + u) * d3 + 2 * d + h * dh + i]) * val(
                            self.dy[(b * n + t) * d + h * dh + i],
                        ),
                    );
                let ds = val(self.dpreatt[at + s]) + w(s) * (dw(s) - sum_of(
                    t + 1,
                    |u: int| w(u) * dw(u),
                ));
                &&& val(self.query_share(b, h, t, s)[j]) == val(
                    self.x[b * n * d3 + (s * 3 + 1) * d + h * dh + j],
                ) * ds * c
                &&& val(self.key_share(b, h, t, s)[j]) == val(
                    self.x[b * n * d3 + t * 3 * d + h * dh + j],
                ) * ds * c
                &&& val(self.value_share(b, h, t, s)[j]) == w(s) * val(
                    self.dy[(b * n + t) * d + h * dh + j],
                )
            }),
    {
        let g = self.g;
        let (n, nh, d3) = (g.n as int, g.nh as int, g.d3 as int);
        let (d, dh) = (d3 / 3, d3 / 3 / nh);
        self.lemma_dscore(val, batch, b, h, t, s);
        g.lemma_dense(b, t, h, batch);
        g.lemma_dense(b, s, h, batch);
        g.lemma_out(b, t, h, batch);
        assert(val(E::count_spec(g.dh)) == (g.dh as int) as real);
        lemma_same_root(val(scaling::<E>(g)), c, (g.dh as int) as real);
        let k = slice(self.x, g.dense_key(b, s, h), dh);
        let q = slice(self.x, g.dense_query(b, t, h), dh);
        assert(k[j] == self.x[b * n * d3 + (s * 3 + 1) * d + h * dh + j]);
        assert(q[j] == self.x[b * n * d3 + t * 3 * d + h * dh + j]);
        assert(self.share(b, t, h)[j] == self.dy[(b * n + t) * d + h * dh + j]);
    }

    /// Whether `c` is the inverse root of the width of a head.
    pub open spec fn inverse_root(self, c: real) -> bool {
        let dh = self.g.dh as int;
        dh > 0 ==> c > 0 as real && c * c * (dh as real) == 1 as real
    }

    /// What head `h` at position `t` adds to cell `cell` for position `s`: to the
    /// query at `t`, to the key at `s` and to the value at `s`.
    pub open spec fn added(
        self,
        val: spec_fn(E) -> real,
        c: real,
        cell: int,
        b: int,
        t: int,
        h: int,
        s: int,
    ) -> real {
        let (n, nh, d3) = (self.g.n as int, self.g.nh as int, self.g.d3 as int);
        let (d, dh) = (d3 / 3, d3 / 3 / nh);
        let q = b * n * d3 + t * 3 * d + h * dh;
        let k = b * n * d3 + (s * 3 + 1) * d + h * dh;
        let v = (b * n + s) * d3 + 2 * d + h * dh;
        let ds = self.score_gradient(val, b, h, t, s);
        let to_value = if v <= cell < v + dh {
            val(self.att[((b * nh + h) * n + t) * n + s]) * val(
                self.dy[(b * n + t) * d + h * dh + (cell - v)],
            )
        } else {
            0 as real
        };
        let to_query = if q <= cell < q + dh {
            val(self.x[k + (cell - q)]) * ds * c
        } else {
            0 as real
        };
        let to_key = if k <= cell < k + dh {
            val(self.x[q + (cell - k)]) * ds * c
        } else {
            0 as real
        };
        to_value + (to_query + to_key)
    }

    /// What the value shares of the first `m` positions add to a cell.
    proof fn lemma_values_cell(
        self,
        val: spec_fn(E) -> real,
        batch: int,
        dx: Seq<E>,
        cell: int,
        b: int,
        t: int,
        h: int,
        m: int,
    )
        requires
            exact(val),
            self.sized(batch),
            in_walk(self.g, batch, b, t, h),
            0 <= cell < dx.len(),
            0 <= m <= t + 1,
        ensures
            self.with_values(dx, b, h, t, m).len() == dx.len(),
            val(self.with_values(dx, b, h, t, m)[cell]) == val(dx[cell]) + sum_of(
                m,
                |s: int|
                    {
                        let v = self.g.part(b, s, 2, h);
                        if v <= cell < v + self.g.dh {
                            val(self.value_share(b, h, t, s)[cell - v])
                        } else {
                            0 as real
                        }
                    },
            ),
        decreases m,
    {
        let f = |s: int|
            {
                let v = self.g.part(b, s, 2, h);
                if v <= cell < v + self.g.dh {
                    val(self.value_share(b, h, t, s)[cell - v])
                } else {
                    0 as real
                }
            };
        if m > 0 {
            self.lemma_values_cell(val, batch, dx, cell, b, t, h, m - 1);
            law_sum_grows(m - 1, f);
        } else {
            law_sum_grows(0, f);
        }
    }

    /// What the query and key shares of the first `m` positions add to a cell.
    proof fn lemma_keys_cell(
        self,
        val: spec_fn(E) -> real,
        batch: int,
        dx: Seq<E>,
        cell: int,
        b: int,
        t: int,
        h: int,
        m: int,
    )
        requires
            exact(val),
            self.sized(batch),
            in_walk(self.g, batch, b, t, h),
            0 <= cell < dx.len(),
            0 <= m <= t + 1,
        ensures
            self.with_keys(dx, b, h, t, m).len() == dx.len(),
            val(self.with_keys(dx, b, h, t, m)[cell]) == val(dx[cell]) + sum_of(
                m,
                |s: int|
                    {
                        let (q, k) = (self.g.dense_query(b, t, h), self.g.dense_key(b, s, h));
                        let to_query = if q <= cell < q + self.g.dh {
                            val(self.query_share(b, h, t, s)[cell - q])
                        } else {
                            0 as real
                        };
                        let to_key = if k <= cell < k + self.g.dh {
                            val(self.key_share(b, h, t, s)[cell - k])
                        } else {
                            0 as real
                        };
                        to_query + to_key
                    },
            ),
        decreases m,
    {
        let f = |s: int|
            {
                let (q, k) = (self.g.dense_query(b, t, h), self.g.dense_key(b, s, h));
                let to_query = if q <= cell < q + self.g.dh {
                    val(self.query_share(b, h, t, s)[cell - q])
                } else {
                    0 as real
                };
                let to_key = if k <= cell < k + self.g.dh {
                    val(self.key_share(b, h, t, s)[cell - k])
                } else {
                    0 as real
                };
                to_query + to_key
            };
        if m > 0 {
            self.lemma_keys_cell(val, batch, dx, cell, b, t, h, m - 1);
            law_sum_grows(m - 1, f);
            let s = m - 1;
            self.g.lemma_dense(b, t, h, batch);
            self.g.lemma_dense(b, s, h, batch);
            assert(self.query_share(b, h, t, s).len() == self.g.dh);
            assert(self.key_share(b, h, t, s).len() == self.g.dh);
        } else {
            law_sum_grows(0, f);
        }
    }

    /// What one head at one position adds to a cell.
    proof fn lemma_head_cell(
        self,
        val: spec_fn(E) -> real,
        batch: int,
        c: real,
        dx: Seq<E>,
        cell: int,
        b: int,
        t: int,
        h: int,
    )
        requires
            exact(val),
            self.sized(batch),
            self.inverse_root(c),
            in_walk(self.g, batch, b, t, h),
            0 <= cell < dx.len(),
        ensures
            self.with_head(dx, b, t, h).len() == dx.len(),
            val(self.with_head(dx, b, t, h)[cell]) == val(dx[cell]) + sum_of(
                t + 1,
                |s: int| self.added(val, c, cell, b, t, h, s),
            ),
    {
        let g = self.g;
        let between = self.with_values(dx, b, h, t, t + 1);
        self.lemma_values_cell(val, batch, dx, cell, b, t, h, t + 1);
        self.lemma_keys_cell(val, batch, between, cell, b, t, h, t + 1);
        let v = |s: int|
            {
                let v = self.g.part(b, s, 2, h);
                if v <= cell < v + self.g.dh {
                    val(self.value_share(b, h, t, s)[cell - v])
                } else {
                    0 as real
                }
            };
        let k = |s: int|
            {
                let (q, k) = (self.g.dense_query(b, t, h), self.g.dense_key(b, s, h));
                let to_query = if q <= cell < q + self.g.dh {
                    val(self.query_share(b, h, t, s)[cell - q])
                } else {
                    0 as real
                };
                let to_key = if k <= cell < k + self.g.dh {
                    val(self.key_share(b, h, t, s)[cell - k])
                } else {
                    0 as real
                };
                to_query + to_key
            };
        let (all, each) = (|s: int| self.added(val, c, cell, b, t, h, s), |s: int| v(s) + k(s));
        assert forall|s: int| 0 <= s < t + 1 implies #[trigger] all(s) == each(s) by {
            let (at, q, r) = (g.part(b, s, 2, h), g.dense_query(b, t, h), g.dense_key(b, s, h));
            if at <= cell < at + g.dh {
                self.law_share_values(val, batch, b, h, t, s, cell - at, c);
            }
            if q <= cell < q + g.dh {
                self.law_share_values(val, batch, b, h, t, s, cell - q, c);
            }
            if r <= cell < r + g.dh {
                self.law_share_values(val, batch, b, h, t, s, cell - r, c);
            }
        }
        lemma_sum_same(t + 1, all, each);
        lemma_sum_plus(t + 1, v, k);
    }

    /// What the first `m` heads at one position add to a cell.
    proof fn lemma_heads_cell(
        self,
        val: spec_fn(E) -> real,
        batch: int,
        c: real,
        dx: Seq<E>,
        cell: int,
        b: int,
        t: int,
        m: int,
    )
        requires
            exact(val),
            self.sized(batch),
            self.inverse_root(c),
            0 <= b < batch,
            0 <= t < self.g.n,
            0 <= cell < dx.len(),
            0 <= m <= self.g.nh,
        ensures
            self.with_heads(dx, b, t, m).len() == dx.len(),
            val(self.with_heads(dx, b, t, m)[cell]) == val(dx[cell]) + sum_of(
                m,
                |h: int| sum_of(t + 1, |s: int| self.added(val, c, cell, b, t, h, s)),
            ),
        decreases m,
    {
        let f = |h: int| sum_of(t + 1, |s: int| self.added(val, c, cell, b, t, h, s));
        if m > 0 {
            self.lemma_heads_cell(val, batch, c, dx, cell, b, t, m - 1);
            let before = self.with_heads(dx, b, t, m - 1);
            self.lemma_head_cell(val, batch, c, before, cell, b, t, m - 1);
            law_sum_grows(m - 1, f);
        } else {
            law_sum_grows(0, f);
        }
    }

    /// What the first `m` positions add to a cell.
    proof fn lemma_positions_cell(
        self,
        val: spec_fn(E) -> real,
        batch: int,
        c: real,
        dx: Seq<E>,
        cell: int,
        b: int,
        m: int,
    )
        requires
            exact(val),
            self.sized(batch),
            self.inverse_root(c),
            0 <= b < batch,
            0 <= cell < dx.len(),
            0 <= m <= self.g.n,
        ensures
            self.with_positions(dx, b, m).len() == dx.len(),
            val(self.with_positions(dx, b, m)[cell]) == val(dx[cell]) + sum_of(
                m,
                |t: int|
                    sum_of(
                        self.g.nh as int,
                        |h: int| sum_of(t + 1, |s: int| self.added(val, c, cell, b, t, h, s)),
                    ),
            ),
        decreases m,
    {
        let nh = self.g.nh as int;
        let f = |t: int|
            sum_of(
                self.g.nh as int,
                |h: int| sum_of(t + 1, |s: int| self.added(val, c, cell, b, t, h, s)),
            );
        if m > 0 {
            self.lemma_positions_cell(val, batch, c, dx, cell, b, m - 1);
            self.lemma_heads_cell(
                val,
                batch,
                c,
                self.with_positions(dx, b, m - 1),
                cell,
                b,
                m - 1,
                nh,
            );
            law_sum_grows(m - 1, f);
        } else {
            law_sum_grows(0, f);
        }
    }

    /// What the first `m` sequences add to any cell of the gradient of the input: all
    /// that their heads add at their positions, for every position up to each.
    pub proof fn law_every_cell(
        self,
        val: spec_fn(E) -> real,
        batch: int,
        c: real,
        dx: Seq<E>,
        cell: int,
        m: int,
    )
        requires
            exact(val),
            self.sized(batch),
            self.inverse_root(c),
            0 <= cell < dx.len(),
            0 <= m <= batch,
        ensures
            self.with_sequences(dx, m).len() == dx.len(),
            val(self.with_sequences(dx, m)[cell]) == val(dx[cell]) + sum_of(
                m,
                |b: int|
                    sum_of(
                        self.g.n as int,
                        |t: int|
                            sum_of(
                                self.g.nh as int,
                                |h: int|
                                    sum_of(t + 1, |s: int| self.added(val, c, cell, b, t, h, s)),
                            ),
                    ),
            ),
        decreases m,
    {
        let n = self.g.n as int;
        let f = |b: int|
            sum_of(
                self.g.n as int,
                |t: int|
                    sum_of(
                        self.g.nh as int,
                        |h: int| sum_of(t + 1, |s: int| self.added(val, c, cell, b, t, h, s)),
                    ),
            );
        if m > 0 {
            self.law_every_cell(val, batch, c, dx, cell, m - 1);
            self.lemma_positions_cell(
                val,
                batch,
                c,
                self.with_sequences(dx, m - 1),
                cell,
                m - 1,
                n,
            );
            law_sum_grows(m - 1, f);
        } else {
            law_sum_grows(0, f);
        }
    }

    /// The gradients of query, key and value of head `h` at position `t` of sequence
    /// `b`, where a row is three parts and nothing more: the query gathers from the
    /// keys up to its position, key and value from the queries and outputs from theirs
    /// on.
    pub proof fn law_gradient_values(
        self,
        val: spec_fn(E) -> real,
        batch: int,
        c: real,
        dx: Seq<E>,
        b: int,
        h: int,
        t: int,
        j: int,
    )
        requires
            exact(val),
            self.sized(batch),
            self.g.d3 as int % 3 == 0,
            dx.len() == self.x.len(),
            in_walk(self.g, batch, b, t, h),
            0 <= j < self.g.dh,
            c > 0 as real,
            c * c * ((self.g.dh as int) as real) == 1 as real,
        ensures
            ({
                let (n, nh, d3) = (self.g.n as int, self.g.nh as int, self.g.d3 as int);
                let (d, dh) = (d3 / 3, d3 / 3 / nh);
                let after = self.with_sequences(dx, batch);
                let ds = |u: int, s: int| self.score_gradient(val, b, h, u, s);
                let at = (b * n + t) * d3 + h * dh + j;
                &&& after.len() == dx.len()
                &&& val(after[at]) == val(dx[at]) + sum_of(
                    t + 1,
                    |s: int| val(self.x[(b * n + s) * d3 + d + h * dh + j]) * ds(t, s) * c,
                )
                &&& val(after[at + d]) == val(dx[at + d]) + sum_of(
                    n - t,
                    |i: int| val(self.x[(b * n + (t + i)) * d3 + h * dh + j]) * ds(t + i, t) * c,
                )
                &&& val(after[at + 2 * d]) == val(dx[at + 2 * d]) + sum_of(
                    n - t,
                    |i: int| val(self.att[((b * nh + h) * n + (t + i)) * n + t]) * val(
                        self.dy[(b * n + (t + i)) * d + h * dh + j],
                    ),
                )
            }),
    {
        let g = self.g;
        let (n, nh, d3) = (g.n as int, g.nh as int, g.d3 as int);
        let (d, dh) = (d3 / 3, d3 / 3 / nh);
        let after = self.with_sequences(dx, batch);
        let ds = |u: int, s: int| self.score_gradient(val, b, h, u, s);
        let at = (b * n + t) * d3 + h * dh + j;
        assert(self.dense(batch));
        g.lemma_part(b, t, 0, h, batch);
        g.lemma_part(b, t, 1, h, batch);
        g.lemma_part(b, t, 2, h, batch);
        self.law_every_cell(val, batch, c, dx, at, batch);
        let (q, k, v) = (g.part(b, t, 0, h), g.part(b, t, 1, h), g.part(b, t, 2, h));
        assert(q + j == at && k + j == at + d && v + j == at + 2 * d);
        self.law_query_gradient(batch, dx, b, h, t);
        self.law_key_gradient(batch, dx, b, h, t);
        self.law_value_gradient(batch, dx, b, h, t);
        assert(slice(after, q, dh)[j] == after[at] && slice(dx, q, dh)[j] == dx[at]);
        assert(slice(after, k, dh)[j] == after[at + d] && slice(dx, k, dh)[j] == dx[at + d]);
        assert(slice(after, v, dh)[j] == after[at + 2 * d]);
        assert(slice(dx, v, dh)[j] == dx[at + 2 * d]);
        let qs = Seq::new((t + 1) as nat, |s: int| self.query_share(b, h, t, s));
        let ks = Seq::new((n - t) as nat, |i: int| self.key_share(b, h, t + i, t));
        let vs = Seq::new((n - t) as nat, |i: int| self.value_share(b, h, t + i, t));
        let (qt, kt, vt) = (
            Seq::new(qs.len(), |s: int| qs[s][j]),
            Seq::new(ks.len(), |i: int| ks[i][j]),
            Seq::new(vs.len(), |i: int| vs[i][j]),
        );
        let qf = |s: int| val(self.x[(b * n + s) * d3 + d + h * dh + j]) * ds(t, s) * c;
        let kf = |i: int| val(self.x[(b * n + (t + i)) * d3 + h * dh + j]) * ds(t + i, t) * c;
        let vf = |i: int| val(self.att[((b * nh + h) * n + (t + i)) * n + t]) * val(
            self.dy[(b * n + (t + i)) * d + h * dh + j],
        );
        assert forall|s: int| 0 <= s < qt.len() implies val(#[trigger] qt[s]) == qf(s) by {
            self.law_share_values(val, batch, b, h, t, s, j, c);
            g.law_dense_rows(b, s, h);
        }
        assert forall|i: int| 0 <= i < kt.len() implies val(#[trigger] kt[i]) == kf(i) by {
            self.law_share_values(val, batch, b, h, t + i, t, j, c);
            g.law_dense_rows(b, t + i, h);
        }
        assert forall|i: int| 0 <= i < vt.len() implies val(#[trigger] vt[i]) == vf(i) by {
            self.law_share_values(val, batch, b, h, t + i, t, j, c);
        }
        lemma_exact_terms(val, dx[at], qt, qf);
        lemma_exact_terms(val, dx[at + d], kt, kf);
        lemma_exact_terms(val, dx[at + 2 * d], vt, vf);
    }
}

/// What the layer gives for head `h` at position `t` of sequence `b`, forward and
/// backward, in terms of the input and the gradient of the output alone.  `scored`
/// tells the scores and `weight` the weights by what they satisfy: a score is the
/// product of query and key over the root of the width of a head, and a weight the
/// share of the exponential of its score in those of the positions up to `t`.
pub proof fn law_pass_values<E: Scalar>(
    val: spec_fn(E) -> real,
    before: (Attention<E>, State<E>),
    x: Content<E>,
    between: (Attention<E>, State<E>),
    y: Content<E>,
    dy: Content<E>,
    after: (Attention<E>, State<E>),
    dx: Content<E>,
    b: int,
    t: int,
    h: int,
    j: int,
    c: real,
    scored: spec_fn(int, int) -> E,
    weight: spec_fn(int, int) -> real,
)
    requires
        exact(val),
        smooth(val),
        before.0.forward_accepts(seq![x], before.1),
        Attention::<E>::forwards(before, seq![x], between, seq![y]),
        between.0.backward_accepts(seq![dy], between.1),
        Attention::<E>::backwards(between, seq![dy], after, seq![dx]),
        x.dims[2] as int % 3 == 0,
        0 <= b < x.dims[0],
        0 <= t < x.dims[1],
        0 <= h < before.0.nh,
        0 <= j < (x.dims[2] as int) / 3 / (before.0.nh as int),
        c > 0 as real,
        c * c * (((x.dims[2] as int) / 3 / (before.0.nh as int)) as real) == 1 as real,
        forall|u: int, s: int|
            #![trigger scored(u, s)]
            0 <= s <= u < x.dims[1] ==> val(scored(u, s)) == ({
                let (n, d3) = (x.dims[1] as int, x.dims[2] as int);
                let (d, dh) = (d3 / 3, d3 / 3 / (before.0.nh as int));
                sum_of(
                    dh,
                    |i: int| val(x.cells()[(b * n + u) * d3 + h * dh + i]) * val(
                        x.cells()[(b * n + s) * d3 + d + h * dh + i],
                    ),
                ) * c
            }),
        forall|u: int, s: int|
            #![trigger weight(u, s)]
            0 <= s <= u < x.dims[1] ==> weight(u, s) * sum_of(
                u + 1,
                |r: int| val(scored(u, r).exp_spec()),
            ) == val(scored(u, s).exp_spec()),
    ensures
        ({
            let (n, d3) = (x.dims[1] as int, x.dims[2] as int);
            let (d, dh) = (d3 / 3, d3 / 3 / (before.0.nh as int));
            let (xs, gs) = (x.cells(), dy.cells());
            let q = |u: int| val(xs[(b * n + u) * d3 + h * dh + j]);
            let k = |u: int| val(xs[(b * n + u) * d3 + d + h * dh + j]);
            let v = |u: int| val(xs[(b * n + u) * d3 + 2 * d + h * dh + j]);
            let g = |u: int| val(gs[(b * n + u) * d + h * dh + j]);
            let dw = |u: int, s: int|
                sum_of(
                    dh,
                    |i: int| val(xs[(b * n + s) * d3 + 2 * d + h * dh + i]) * val(
                        gs[(b * n + u) * d + h * dh + i],
                    ),
                );
            let ds = |u: int, s: int|
                weight(u, s) * (dw(u, s) - sum_of(u + 1, |r: int| weight(u, r) * dw(u, r)));
            let at = (b * n + t) * d3 + h * dh + j;
            &&& y.dims == seq![x.dims[0], x.dims[1], (x.dims[2] / 3) as usize]
            &&& dx.dims == x.dims
            &&& val(y.cells()[(b * n + t) * d + h * dh + j]) == sum_of(
                t + 1,
                |s: int| weight(t, s) * v(s),
            )
            &&& val(dx.cells()[at]) == sum_of(t + 1, |s: int| k(s) * ds(t, s) * c)
            &&& val(dx.cells()[at + d]) == sum_of(n - t, |i: int| q(t + i) * ds(t + i, t) * c)
            &&& val(dx.cells()[at + 2 * d]) == sum_of(
                n - t,
                |i: int| weight(t + i, t) * g(t + i),
            )
        }),
{
    let att = (between.0.att->0)@;
    let o = operands(x, dy, att);
    let batch = x.dims[0] as int;
    let (n, nh, d3) = (x.dims[1] as int, before.0.nh as int, x.dims[2] as int);
    let (d, dh) = (d3 / 3, d3 / 3 / nh);
    let (xs, gs, atts) = (x.cells(), dy.cells(), att.cells());
    assert(seq![x][0] == x && seq![y][0] == y && seq![dy][0] == dy && seq![dx][0] == dx);
    lemma_size3(x.dims);
    lemma_size3(dy.dims);
    lemma_size4(att.dims);
    assert(o.sized(batch));
    assert forall|u: int, s: int| 0 <= s <= u < n implies val(
        #[trigger] atts[((b * nh + h) * n + u) * n + s],
    ) == weight(u, s) by {
        let row = |r: int| scored(u, r);
        law_attends_values(val, x, y, att, b, u, h, s, j, c, row);
        let e = |r: int| val(row(r).exp_spec());
        let f = |r: int| val(scored(u, r).exp_spec());
        lemma_sum_same(u + 1, e, f);
        assert forall|r: int| 0 <= r < u + 1 implies #[trigger] f(r) > 0 as real by {
        }
        lemma_sum_positive(u + 1, f);
        lemma_cancel(val(atts[((b * nh + h) * n + u) * n + s]), weight(u, s), sum_of(u + 1, f));
    }
    let q = |u: int| val(xs[(b * n + u) * d3 + h * dh + j]);
    let k = |u: int| val(xs[(b * n + u) * d3 + d + h * dh + j]);
    let v = |u: int| val(xs[(b * n + u) * d3 + 2 * d + h * dh + j]);
    let g = |u: int| val(gs[(b * n + u) * d + h * dh + j]);
    let dw = |u: int, s: int|
        sum_of(
            dh,
            |i: int| val(xs[(b * n + s) * d3 + 2 * d + h * dh + i]) * val(
                gs[(b * n + u) * d + h * dh + i],
            ),
        );
    let ds = |u: int, s: int|
        weight(u, s) * (dw(u, s) - sum_of(u + 1, |r: int| weight(u, r) * dw(u, r)));
    law_attends_values(val, x, y, att, b, t, h, 0, j, c, |r: int| scored(t, r));
    let from = ((b * nh + h) * n + t) * n;
    lemma_sum_same(
        t + 1,
        |s: int| weight(t, s) * v(s),
        |s: int| val(atts[from + s]) * val(xs[(b * n + s) * d3 + 2 * d + h * dh + j]),
    );
    assert forall|u: int, s: int| 0 <= s <= u < n implies #[trigger] o.score_gradient(
        val,
        b,
        h,
        u,
        s,
    ) == ds(u, s) by {
        lemma_score_gradient(val, o, batch, weight, b, h, u, s);
    }
    let zero = zeros::<E>(xs.len() as int);
    o.law_gradient_values(val, batch, c, zero, b, h, t, j);
    let so = |u: int, s: int| o.score_gradient(val, b, h, u, s);
    lemma_sum_same(
        t + 1,
        |s: int| k(s) * ds(t, s) * c,
        |s: int| val(o.x[(b * n + s) * d3 + d + h * dh + j]) * so(t, s) * c,
    );
    lemma_sum_same(
        n - t,
        |i: int| q(t + i) * ds(t + i, t) * c,
        |i: int| val(o.x[(b * n + (t + i)) * d3 + h * dh + j]) * so(t + i, t) * c,
    );
    lemma_sum_same(
        n - t,
        |i: int| weight(t + i, t) * g(t + i),
        |i: int| val(o.att[((b * nh + h) * n + (t + i)) * n + t]) * val(
            o.dy[(b * n + (t + i)) * d + h * dh + j],
        ),
    );
    o.g.lemma_part(b, t, 0, h, batch);
    o.g.lemma_part(b, t, 1, h, batch);
    o.g.lemma_part(b, t, 2, h, batch);
}

/// The gradient of a score where nothing was known before, over other numbers for
/// the weights.
proof fn lemma_score_gradient<E: Scalar>(
    val: spec_fn(E) -> real,
    o: Operands<E>,
    batch: int,
    weight: spec_fn(int, int) -> real,
    b: int,
    h: int,
    u: int,
    s: int,
)
    requires
        exact(val),
        o.sized(batch),
        in_walk(o.g, batch, b, u, h),
        0 <= s <= u,
        forall|i: int| 0 <= i < o.datt.len() ==> #[trigger] o.datt[i] == E::zero_spec(),
        forall|i: int| 0 <= i < o.dpreatt.len() ==> #[trigger] o.dpreatt[i] == E::zero_spec(),
        forall|u: int, s: int|
            0 <= s <= u < o.g.n ==> val(
                #[trigger] o.att[((b * o.g.nh + h) * o.g.n + u) * o.g.n + s],
            ) == weight(u, s),
    ensures
        ({
            let (n, nh, d3) = (o.g.n as int, o.g.nh as int, o.g.d3 as int);
            let (d, dh) = (d3 / 3, d3 / 3 / nh);
            let (xs, gs) = (o.x, o.dy);
            let dw = |u: int, s: int|
                sum_of(
                    dh,
                    |i: int| val(xs[(b * n + s) * d3 + 2 * d + h * dh + i]) * val(
                        gs[(b * n + u) * d + h * dh + i],
                    ),
                );
            o.score_gradient(val, b, h, u, s) == weight(u, s) * (dw(u, s) - sum_of(
                u + 1,
                |r: int| weight(u, r) * dw(u, r),
            ))
        }),
{
    let (n, nh, d3) = (o.g.n as int, o.g.nh as int, o.g.d3 as int);
    let (d, dh) = (d3 / 3, d3 / 3 / nh);
    let (xs, gs) = (o.x, o.dy);
    let at = ((b * nh + h) * n + u) * n;
    o.g.lemma_weights(b, h, u, batch);
    let dw = |u: int, s: int|
        sum_of(
            dh,
            |i: int| val(xs[(b * n + s) * d3 + 2 * d + h * dh + i]) * val(
                gs[(b * n + u) * d + h * dh + i],
            ),
        );
    let w = |r: int| val(o.att[at + r]);
    let known = |r: int|
        val(o.datt[at + r]) + sum_of(
            dh,
            |i: int| val(o.x[(b * n + r) * d3 + 2 * d + h * dh + i]) * val(
                o.dy[(b * n + u) * d + h * dh + i],
            ),
        );
    assert forall|r: int| 0 <= r <= u implies #[trigger] known(r) == dw(u, r) && w(r) == weight(
        u,
        r,
    ) by {
        assert(o.datt[at + r] == E::zero_spec());
    }
    assert(o.dpreatt[at + s] == E::zero_spec());
    assert(known(s) == dw(u, s));
    let (f, e) = (|r: int| weight(u, r) * dw(u, r), |r: int| w(r) * known(r));
    assert forall|r: int| 0 <= r < u + 1 implies #[trigger] f(r) == e(r) by {
        assert(known(r) == dw(u, r));
    }
    lemma_sum_same(u + 1, f, e);
}

} // verus!
