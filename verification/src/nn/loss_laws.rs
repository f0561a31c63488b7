//! What holds of the loss over both of its passes, and over the reals.
use crate::exact::{
    exact, lemma_associate, lemma_cancel, lemma_commute, lemma_distribute_back, lemma_exact_sum,
    lemma_exact_terms, lemma_exp_order, lemma_exp_sum, lemma_greater, lemma_inverse,
    lemma_is_quotient, lemma_ln_negated, lemma_negate, lemma_positive, lemma_quotient,
    lemma_sum_positive, lemma_sum_same, lemma_sum_scaled, lemma_total_combined, lemma_total_joined,
    lemma_total_max, lemma_total_sign, lemma_total_single, lemma_total_zeros, smooth, sum_of, total,
    values,
};
use crate::nn::loss::{crest, law_mask_hides, logit_share, masked_softmax, softmax_of, Loss};
use crate::nn::NeuralNetwork;
use crate::scalar::Scalar;
use crate::state::State;
use crate::tensor::{lemma_size2, lemma_size3, Content};
use crate::vector::{accumulated, exponentials, lemma_rows_apart, row, zeros};
use vstd::prelude::*;

verus! {

/// The gradient of a row of logits: what the row adds to zeros.
pub open spec fn row_gradient<E: Scalar>(
    logits: Seq<E>,
    mask: int,
    target: int,
    dloss: E,
) -> Seq<E> {
    accumulated(
        zeros(logits.len() as int),
        0,
        logit_share(masked_softmax(logits, mask), target, dloss),
    )
}

/// Forward, then backward: the gradient of every row of logits is that of its
/// probabilities at its target, those behind the mask being zero.  The context
/// stays as it was, and the layer cannot go backward once more.
pub proof fn law_both_passes<E: Scalar>(
    before: (Loss<E>, State<E>),
    logits: Content<E>,
    targets: Content<E>,
    between: (Loss<E>, State<E>),
    losses: Content<E>,
    dlosses: Content<E>,
    after: (Loss<E>, State<E>),
    outputs: Seq<Content<E>>,
)
    requires
        before.0.forward_accepts(seq![logits, targets], before.1),
        Loss::<E>::forwards(before, seq![logits, targets], between, seq![losses]),
        between.0.backward_accepts(seq![dlosses], between.1),
        Loss::<E>::backwards(between, seq![dlosses], after, outputs),
    ensures
        after.1 == before.1,
        outputs.len() == 1,
        outputs[0].holds_reals(),
        outputs[0].dims == logits.dims,
        forall|r: int|
            0 <= r < logits.dims[0] * logits.dims[1] ==> #[trigger] row(
                outputs[0].cells(),
                logits.dims[2] as int,
                r,
            ) == row_gradient(
                row(logits.cells(), logits.dims[2] as int, r),
                before.0.n_voc as int,
                targets.tokens()[r] as int,
                dlosses.cells()[r],
            ),
        forall|r: int, i: int|
            0 <= r < logits.dims[0] * logits.dims[1] && before.0.n_voc <= i < logits.dims[2]
                ==> #[trigger] masked_softmax(
                row(logits.cells(), logits.dims[2] as int, r),
                before.0.n_voc as int,
            )[i] == E::zero_spec(),
        forall|inputs: Seq<Content<E>>, ctx: State<E>|
            !(#[trigger] after.0.backward_accepts(inputs, ctx)),
{
    let d = logits.dims[2] as int;
    let n = logits.dims[0] * logits.dims[1];
    let mask = before.0.n_voc as int;
    lemma_size3(logits.dims);
    assert forall|r: int| 0 <= r < n implies #[trigger] row(outputs[0].cells(), d, r)
        == row_gradient(
        row(logits.cells(), d, r),
        mask,
        targets.tokens()[r] as int,
        dlosses.cells()[r],
    ) by {
        lemma_rows_apart(r, n, d);
        assert(row((between.0.probs->0)@.cells(), d, r) == masked_softmax(
            row(logits.cells(), d, r),
            mask,
        ));
    }
    assert forall|r: int, i: int| 0 <= r < n && mask <= i < d implies #[trigger] masked_softmax(
        row(logits.cells(), d, r),
        mask,
    )[i] == E::zero_spec() by {
        lemma_rows_apart(r, n, d);
        lemma_mask(logits, mask, r);
        let xs = row(logits.cells(), d, r);
        law_mask_hides(xs, xs, mask);
    }
}

/// The mask lies within a row.
proof fn lemma_mask<E: Scalar>(logits: Content<E>, mask: int, r: int)
    requires
        logits.dims.len() == 3,
        0 <= r < logits.dims[0] * logits.dims[1],
        logits.dims[0] > 0 && logits.dims[1] > 0 ==> 0 < mask <= logits.dims[2],
    ensures
        0 < mask <= logits.dims[2],
{
    let (a, b) = (logits.dims[0] as int, logits.dims[1] as int);
    assert(a > 0 && b > 0) by (nonlinear_arith)
        requires
            0 <= r < a * b,
            0 <= a,
            0 <= b,
    ;
}

/// The probabilities of a row are positive and add up to one.
pub proof fn law_probabilities<E: Scalar>(val: spec_fn(E) -> real, xs: Seq<E>, mask: int)
    requires
        exact(val),
        0 < mask <= xs.len(),
    ensures
        forall|i: int|
            0 <= i < mask ==> val(#[trigger] masked_softmax(xs, mask)[i]) > 0 as real,
        total(values(val, masked_softmax(xs, mask))) == 1 as real,
{
    let front = xs.take(mask);
    let exps = exponentials(front, crest(front));
    let es = values(val, exps);
    lemma_exact_sum(val, E::zero_spec(), exps);
    lemma_total_sign(es);
    let t = total(es);
    assert(t > 0 as real);
    let probs = values(val, softmax_of(front));
    let inverse = (1 as real) / t;
    assert forall|i: int| 0 <= i < mask implies #[trigger] probs[i] == inverse * es[i] + (0 as real)
        * es[i] + (0 as real) by {
        let e = es[i];
        lemma_inverse(e, t);
    }
    lemma_total_combined(es, es, probs, inverse, 0 as real, 0 as real);
    lemma_inverse(1 as real, t);
    assert forall|i: int| 0 <= i < mask implies val(#[trigger] masked_softmax(xs, mask)[i])
        > 0 as real by {
        let e = es[i];
        assert(probs[i] == inverse * e + (0 as real) * e + (0 as real));
        lemma_positive(inverse, e);
        assert(masked_softmax(xs, mask)[i] == softmax_of(front)[i]);
    }
    let tail = values(val, zeros::<E>(xs.len() - mask));
    lemma_total_zeros(tail);
    lemma_total_joined(probs, tail);
    assert(values(val, masked_softmax(xs, mask)) =~= probs + tail);
}

/// The gradient of a row of logits: the probabilities, less one at the target,
/// times the gradient of the loss; zero behind the mask; zero in all.
pub proof fn law_row_gradient<E: Scalar>(
    val: spec_fn(E) -> real,
    logits: Seq<E>,
    mask: int,
    target: int,
    dloss: E,
)
    requires
        exact(val),
        0 < mask <= logits.len(),
        0 <= target < mask,
    ensures
        ({
            let gradient = row_gradient(logits, mask, target, dloss);
            &&& gradient.len() == logits.len()
            &&& forall|i: int|
                0 <= i < mask ==> val(#[trigger] gradient[i]) == (val(
                    softmax_of(logits.take(mask))[i],
                ) - if i == target {
                    1 as real
                } else {
                    0 as real
                }) * val(dloss)
            &&& forall|i: int|
                mask <= i < logits.len() ==> val(#[trigger] gradient[i]) == 0 as real
            &&& total(values(val, gradient)) == 0 as real
        }),
{
    let gradient = row_gradient(logits, mask, target, dloss);
    let n = logits.len() as int;
    let probs = values(val, masked_softmax(logits, mask));
    let marks = Seq::new(
        n as nat,
        |i: int|
            if i == target {
                1 as real
            } else {
                0 as real
            },
    );
    let gs = values(val, gradient);
    let c = val(dloss);
    law_probabilities(val, logits, mask);
    law_mask_hides(logits, logits, mask);
    lemma_total_single(marks, target, 1 as real);
    let share = logit_share(masked_softmax(logits, mask), target, dloss);
    assert forall|i: int| 0 <= i < n implies #[trigger] gs[i] == (probs[i] - marks[i]) * c by {
        assert(gradient[i] == zeros::<E>(n)[i].plus_spec(share[i]));
    }
    assert forall|i: int| 0 <= i < n implies #[trigger] gs[i] == c * probs[i] + (-c) * marks[i]
        + (0 as real) by {
        let (p, k) = (probs[i], marks[i]);
        lemma_commute(p - k, c);
        lemma_distribute_back(c, p, k);
        lemma_negate(c, k);
    }
    lemma_total_combined(probs, marks, gs, c, -c, 0 as real);
    assert forall|i: int| 0 <= i < mask implies val(#[trigger] gradient[i]) == (val(
        softmax_of(logits.take(mask))[i],
    ) - if i == target {
        1 as real
    } else {
        0 as real
    }) * val(dloss) by {
        assert(gs[i] == (probs[i] - marks[i]) * c);
        assert(masked_softmax(logits, mask)[i] == softmax_of(logits.take(mask))[i]);
    }
    assert forall|i: int| mask <= i < n implies val(#[trigger] gradient[i]) == 0 as real by {
        assert(gs[i] == (probs[i] - marks[i]) * c);
        assert(masked_softmax(logits, mask)[i] == E::zero_spec());
        let u = probs[i] - marks[i];
        assert(u == 0 as real && u * c == (0 as real) * c);
    }
}

/// Forward, then backward, with every target within the vocabulary: every row of
/// the gradient is zero behind the mask, and zero in all.
pub proof fn law_gradient_balanced<E: Scalar>(
    val: spec_fn(E) -> real,
    before: (Loss<E>, State<E>),
    logits: Content<E>,
    targets: Content<E>,
    between: (Loss<E>, State<E>),
    losses: Content<E>,
    dlosses: Content<E>,
    after: (Loss<E>, State<E>),
    outputs: Seq<Content<E>>,
    r: int,
)
    requires
        exact(val),
        before.0.forward_accepts(seq![logits, targets], before.1),
        Loss::<E>::forwards(before, seq![logits, targets], between, seq![losses]),
        between.0.backward_accepts(seq![dlosses], between.1),
        Loss::<E>::backwards(between, seq![dlosses], after, outputs),
        0 <= r < logits.dims[0] * logits.dims[1],
        targets.tokens()[r] < before.0.n_voc,
    ensures
        ({
            let gradient = row(outputs[0].cells(), logits.dims[2] as int, r);
            let mask = before.0.n_voc as int;
            let probs = softmax_of(row(logits.cells(), logits.dims[2] as int, r).take(mask));
            &&& forall|i: int|
                0 <= i < mask ==> val(#[trigger] gradient[i]) == (val(probs[i]) - if i
                    == targets.tokens()[r] {
                    1 as real
                } else {
                    0 as real
                }) * val(dlosses.cells()[r])
            &&& forall|i: int|
                mask <= i < logits.dims[2] ==> val(#[trigger] gradient[i]) == 0 as real
            &&& total(values(val, gradient)) == 0 as real
        }),
{
    let d = logits.dims[2] as int;
    let mask = before.0.n_voc as int;
    law_both_passes(before, logits, targets, between, losses, dlosses, after, outputs);
    lemma_size3(logits.dims);
    lemma_size2(targets.dims);
    lemma_rows_apart(r, logits.dims[0] * logits.dims[1], d);
    lemma_mask(logits, mask, r);
    assert(row(outputs[0].cells(), d, r) == row_gradient(
        row(logits.cells(), d, r),
        mask,
        targets.tokens()[r] as int,
        dlosses.cells()[r],
    ));
    law_row_gradient(
        val,
        row(logits.cells(), d, r),
        mask,
        targets.tokens()[r] as int,
        dlosses.cells()[r],
    );
}

/// The greatest of `xs` is one of them, and none is greater.
proof fn lemma_crest<E: Scalar>(val: spec_fn(E) -> real, xs: Seq<E>) -> (t: int)
    requires
        smooth(val),
        xs.len() > 0,
    ensures
        0 <= t < xs.len(),
        val(crest(xs)) == val(xs[t]),
        forall|k: int| 0 <= k < xs.len() ==> val(#[trigger] xs[k]) <= val(crest(xs)),
    decreases xs.len(),
{
    if xs.len() <= 1 {
        0
    } else {
        let t = lemma_crest(val, xs.drop_last());
        let (a, b) = (crest(xs.drop_last()), xs.last());
        lemma_total_max(val, a, b);
        assert forall|k: int| 0 <= k < xs.len() implies val(#[trigger] xs[k]) <= val(crest(xs)) by {
            if k < xs.len() - 1 {
                assert(xs[k] == xs.drop_last()[k]);
            }
        }
        if val(crest(xs)) == val(a) {
            t
        } else {
            xs.len() - 1
        }
    }
}

/// Every probability belongs to its own logit: the exponential of how far the
/// logit is below `top`, over the sum of these exponentials.  `top` is the greatest
/// of the logits before the mask: the one at `t`.
pub proof fn law_softmax_below_top<E: Scalar>(
    val: spec_fn(E) -> real,
    xs: Seq<E>,
    mask: int,
) -> (greatest: (int, E))
    requires
        exact(val),
        smooth(val),
        0 < mask <= xs.len(),
    ensures
        ({
            let (t, top) = greatest;
            &&& 0 <= t < mask && val(top) == val(xs[t])
            &&& forall|k: int| 0 <= k < mask ==> val(#[trigger] xs[k]) <= val(top)
            &&& forall|i: int|
                0 <= i < mask ==> val(#[trigger] masked_softmax(xs, mask)[i]) == val(
                    xs[i].minus_spec(top).exp_spec(),
                ) / sum_of(mask, |k: int| val(xs[k].minus_spec(top).exp_spec()))
        }),
        forall|i: int|
            mask <= i < xs.len() ==> #[trigger] masked_softmax(xs, mask)[i] == E::zero_spec(),
{
    let front = xs.take(mask);
    let top = crest(front);
    let exps = exponentials(front, top);
    let f = |k: int| val(xs[k].minus_spec(top).exp_spec());
    let t = lemma_crest(val, front);
    assert forall|k: int| 0 <= k < mask implies val(#[trigger] xs[k]) <= val(top) by {
        assert(front[k] == xs[k]);
    }
    lemma_exact_terms(val, E::zero_spec(), exps, f);
    lemma_sum_positive(mask, f);
    assert forall|i: int| 0 <= i < mask implies val(#[trigger] masked_softmax(xs, mask)[i]) == val(
        xs[i].minus_spec(top).exp_spec(),
    ) / sum_of(mask, f) by {
        assert(masked_softmax(xs, mask)[i] == softmax_of(front)[i]);
    }
    (t, top)
}

/// A probability is the share of the exponential of its own logit in the
/// exponentials of all logits before the mask.
pub proof fn law_softmax_values<E: Scalar>(
    val: spec_fn(E) -> real,
    xs: Seq<E>,
    mask: int,
    i: int,
)
    requires
        exact(val),
        smooth(val),
        0 < mask <= xs.len(),
        0 <= i < mask,
    ensures
        sum_of(mask, |k: int| val(xs[k].exp_spec())) > 0 as real,
        val(masked_softmax(xs, mask)[i]) * sum_of(mask, |k: int| val(xs[k].exp_spec())) == val(
            xs[i].exp_spec(),
        ),
{
    let (t, top) = law_softmax_below_top(val, xs, mask);
    let f = |k: int| val(xs[k].minus_spec(top).exp_spec());
    let g = |k: int| val(xs[k].exp_spec());
    let e = val(top.exp_spec());
    let scaled = |k: int| e * f(k);
    assert forall|k: int| 0 <= k < mask implies #[trigger] g(k) == scaled(k) by {
        lemma_exp_sum(val, top, xs[k].minus_spec(top), xs[k]);
    }
    lemma_sum_same(mask, g, scaled);
    lemma_sum_scaled(mask, e, f);
    lemma_sum_positive(mask, f);
    let (p, s) = (val(masked_softmax(xs, mask)[i]), sum_of(mask, f));
    lemma_positive(e, s);
    lemma_quotient(f(i), s);
    lemma_commute(e, s);
    lemma_associate(p, s, e);
    lemma_commute(p * s, e);
    assert(g(i) == scaled(i));
    assert(sum_of(mask, scaled) == e * s);
}

/// Equal logits have equal probabilities, and a greater logit has a greater one.
pub proof fn law_softmax_order<E: Scalar>(
    val: spec_fn(E) -> real,
    xs: Seq<E>,
    mask: int,
    i: int,
    j: int,
)
    requires
        exact(val),
        smooth(val),
        0 < mask <= xs.len(),
        0 <= i < mask,
        0 <= j < mask,
    ensures
        val(xs[i]) == val(xs[j]) ==> val(masked_softmax(xs, mask)[i]) == val(
            masked_softmax(xs, mask)[j],
        ),
        val(xs[i]) < val(xs[j]) ==> val(masked_softmax(xs, mask)[i]) < val(
            masked_softmax(xs, mask)[j],
        ),
{
    law_softmax_values(val, xs, mask, i);
    law_softmax_values(val, xs, mask, j);
    lemma_exp_order(val, xs[i], xs[j]);
    let s = sum_of(mask, |k: int| val(xs[k].exp_spec()));
    let (p, q) = (val(masked_softmax(xs, mask)[i]), val(masked_softmax(xs, mask)[j]));
    if val(xs[i]) == val(xs[j]) {
        lemma_cancel(p, q, s);
    } else if val(xs[i]) < val(xs[j]) {
        lemma_greater(p, q, s);
    }
}

/// What the layer gives for row `r`, forward and backward, in terms of logits,
/// target and gradient of the loss alone.  The exponential of a loss times that of
/// the logit of its target is the sum of the exponentials of all logits before the
/// mask.  The gradient of a logit is its probability, less one at the target, times
/// the gradient of the loss; behind the mask the probability is zero.
pub proof fn law_pass_values<E: Scalar>(
    val: spec_fn(E) -> real,
    before: (Loss<E>, State<E>),
    logits: Content<E>,
    targets: Content<E>,
    between: (Loss<E>, State<E>),
    losses: Content<E>,
    dlosses: Content<E>,
    after: (Loss<E>, State<E>),
    dlogits: Content<E>,
    r: int,
    i: int,
)
    requires
        exact(val),
        smooth(val),
        before.0.forward_accepts(seq![logits, targets], before.1),
        Loss::<E>::forwards(before, seq![logits, targets], between, seq![losses]),
        between.0.backward_accepts(seq![dlosses], between.1),
        Loss::<E>::backwards(between, seq![dlosses], after, seq![dlogits]),
        0 <= r < logits.dims[0] * logits.dims[1],
        0 <= i < logits.dims[2],
    ensures
        ({
            let d = logits.dims[2] as int;
            let mask = before.0.n_voc as int;
            let target = targets.tokens()[r] as int;
            let all = sum_of(mask, |k: int| val(logits.cells()[r * d + k].exp_spec()));
            let own = val(logits.cells()[r * d + i].exp_spec());
            let hit = if i == target {
                1 as real
            } else {
                0 as real
            };
            let g = val(dlosses.cells()[r]);
            let probability = own / all;
            &&& all > 0 as real
            &&& target < mask ==> val(losses.cells()[r].exp_spec()) * val(
                logits.cells()[r * d + target].exp_spec(),
            ) == all
            &&& i < mask ==> val(dlogits.cells()[r * d + i]) == (probability - hit) * g
            &&& i >= mask ==> val(dlogits.cells()[r * d + i]) == -(hit * g)
        }),
{
    let d = logits.dims[2] as int;
    let n = logits.dims[0] * logits.dims[1];
    let mask = before.0.n_voc as int;
    let target = targets.tokens()[r] as int;
    let dloss = dlosses.cells()[r];
    assert(seq![dlogits][0] == dlogits && seq![losses][0] == losses);
    assert(seq![logits, targets][0] == logits && seq![logits, targets][1] == targets);
    law_both_passes(before, logits, targets, between, losses, dlosses, after, seq![dlogits]);
    lemma_size3(logits.dims);
    lemma_size2(targets.dims);
    lemma_rows_apart(r, n, d);
    lemma_mask(logits, mask, r);
    let xs = row(logits.cells(), d, r);
    let probs = masked_softmax(xs, mask);
    let f = |k: int| val(xs[k].exp_spec());
    lemma_sum_same(mask, f, |k: int| val(logits.cells()[r * d + k].exp_spec()));
    let all = sum_of(mask, f);
    law_softmax_values(val, xs, mask, 0);
    let share = logit_share(probs, target, dloss);
    assert(row(dlogits.cells(), d, r) == row_gradient(xs, mask, target, dloss));
    assert(row(dlogits.cells(), d, r)[i] == dlogits.cells()[r * d + i]);
    assert(dlogits.cells()[r * d + i] == zeros::<E>(d)[i].plus_spec(share[i]));
    let hit = if i == target {
        1 as real
    } else {
        0 as real
    };
    let g = val(dloss);
    assert(val(share[i]) == (val(probs[i]) - hit) * g);
    law_mask_hides(xs, xs, mask);
    if i < mask {
        law_softmax_values(val, xs, mask, i);
        lemma_is_quotient(f(i), all, val(probs[i]));
    } else {
        lemma_negate(hit, g);
    }
    if target < mask {
        law_softmax_values(val, xs, mask, target);
        law_probabilities(val, xs, mask);
        let p = val(probs[target]);
        assert(p > 0 as real);
        let l = losses.cells()[r];
        assert(l == probs[target].ln_spec().negated_spec());
        lemma_ln_negated(val, probs[target], E::zero_spec());
        let e = val(l.exp_spec());
        lemma_associate(e, p, all);
    }
}

/// What a row adds to the gradient of its logits, whatever its probabilities are:
/// each of them, less one at the target, times the gradient of the loss.
pub proof fn law_share_values<E: Scalar>(
    val: spec_fn(E) -> real,
    probs: Seq<E>,
    target: int,
    dloss: E,
    i: int,
)
    requires
        exact(val),
        0 <= i < probs.len(),
    ensures
        logit_share(probs, target, dloss).len() == probs.len(),
        i == target ==> val(logit_share(probs, target, dloss)[i]) == (val(probs[i]) - 1 as real)
            * val(dloss),
        i != target ==> val(logit_share(probs, target, dloss)[i]) == val(probs[i]) * val(dloss),
{
}

} // verus!
