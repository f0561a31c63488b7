//! Softmax and cross entropy.
use crate::context::Context;
use crate::nn::{alone, both, only, NeuralNetwork};
use crate::scalar::Scalar;
use crate::state::State;
use crate::tensor::{lemma_size2, lemma_size3, Content, Tensor};
use crate::vector::{
    accumulated, exponentials, exponentiate, lemma_accumulated_row, lemma_overwritten_row,
    lemma_rows_apart, row, sum, sum_from, zero_vec, zeros,
};
use std::rc::Rc;
use vstd::prelude::*;

verus! {

/// The last of the greatest numbers of `xs`, in their total order.
pub open spec fn crest<E: Scalar>(xs: Seq<E>) -> E
    decreases xs.len(),
{
    if xs.len() <= 1 {
        xs[0]
    } else {
        crest(xs.drop_last()).total_max_spec(xs.last())
    }
}

/// The softmax of `xs`: exponentials below the greatest of them, over their sum.
pub open spec fn softmax_of<E: Scalar>(xs: Seq<E>) -> Seq<E> {
    let exps = exponentials(xs, crest(xs));
    let total = sum_from(E::zero_spec(), exps);
    Seq::new(exps.len(), |i: int| exps[i].over_spec(total))
}

/// The softmax of the first `mask` numbers of a row, and zeros for the rest.
pub open spec fn masked_softmax<E: Scalar>(xs: Seq<E>, mask: int) -> Seq<E> {
    softmax_of(xs.take(mask)) + zeros::<E>(xs.len() - mask)
}

/// Finds the greatest of `xs`.
fn find_crest<E: Scalar>(xs: &Vec<E>) -> (r: E)
    requires
        xs.len() > 0,
    ensures
        r == crest(xs@),
{
    let mut acc = xs[0].copy();
    let mut i: usize = 1;
    while i < xs.len()
        invariant
            1 <= i <= xs.len(),
            acc == crest(xs@.take(i as int)),
        decreases xs.len() - i,
    {
        acc = acc.total_max(&xs[i]);
        i += 1;
        assert(xs@.take(i as int).drop_last() =~= xs@.take(i - 1));
    }
    assert(xs@.take(i as int) =~= xs@);
    acc
}

/// Turns every row of `x` into probabilities of its first `mask` entries.
pub fn softmax<E: Scalar>(y: &mut Tensor<E>, x: &Tensor<E>, mask: usize)
    requires
        old(y).holds_reals(),
        x.holds_reals(),
        x.dims().len() == 3,
        old(y).dims() == x.dims(),
        x.dims()[0] > 0 && x.dims()[1] > 0 ==> 0 < mask <= x.dims()[2],
    ensures
        old(y).same_form(final(y)),
        forall|r: int|
            0 <= r < x.dims()[0] * x.dims()[1] ==> #[trigger] row(
                final(y).cells(),
                x.dims()[2] as int,
                r,
            ) == masked_softmax(row(x.cells(), x.dims()[2] as int, r), mask as int),
{
    let d = x.dim(2);
    let _len = x.real_len();
    proof {
        lemma_size3(x.dims());
        let (batch, n_seq) = (x.dims()[0] as int, x.dims()[1] as int);
        if batch > 0 && n_seq > 0 {
            assert(batch * n_seq <= batch * n_seq * d) by (nonlinear_arith)
                requires
                    batch > 0,
                    n_seq > 0,
                    d >= 1,
            ;
        } else {
            assert(batch * n_seq == 0) by (nonlinear_arith)
                requires
                    batch == 0 || n_seq == 0,
            ;
        }
    }
    let n = x.dim(0) * x.dim(1);
    let ghost yb = *y;
    let mut r: usize = 0;
    while r < n
        invariant
            r <= n,
            x.is_real(),
            x.cells().len() == n * d,
            yb.same_form(y),
            yb.is_real(),
            y.cells().len() == n * d,
            n > 0 ==> 0 < mask <= d,
            forall|r2: int|
                0 <= r2 < r ==> #[trigger] row(y.cells(), d as int, r2) == masked_softmax(
                    row(x.cells(), d as int, r2),
                    mask as int,
                ),
        decreases n - r,
    {
        let _len = x.real_len();
        proof {
            lemma_rows_apart(r as int, n as int, d as int);
        }
        let input = x.segment(r * d, mask);
        assert(input@ =~= row(x.cells(), d as int, r as int).take(mask as int));
        let top = find_crest(&input);
        let exps = exponentiate(&input, &top);
        let total = sum(E::zero(), &exps);
        let mut out: Vec<E> = Vec::new();
        while out.len() < exps.len()
            invariant
                out.len() <= exps.len(),
                forall|i: int|
                    0 <= i < out.len() ==> #[trigger] out@[i] == exps@[i].over_spec(total),
            decreases exps.len() - out.len(),
        {
            let i: usize = out.len();
            out.push(exps[i].over(&total));
        }
        assert(out@ =~= softmax_of(input@));
        let mut tail: Vec<E> = zero_vec(d - mask);
        out.append(&mut tail);
        assert(out@ =~= masked_softmax(row(x.cells(), d as int, r as int), mask as int));
        proof {
            lemma_overwritten_row(y.cells(), d as int, r as int, n as int, out@);
        }
        y.overwrite(r * d, &out);
        r += 1;
    }
}

/// Takes for every row of `probs` the negative logarithm of the probability of
/// its target.
pub fn crossentropy<E: Scalar>(losses: &mut Tensor<E>, probs: &Tensor<E>, targets: &Tensor<E>)
    requires
        old(losses).holds_reals(),
        probs.holds_reals(),
        targets.holds_tokens(),
        probs.dims().len() == 3,
        old(losses).dims() == probs.dims().take(2),
        targets.dims() == probs.dims().take(2),
        forall|r: int|
            0 <= r < targets.tokens().len() ==> #[trigger] targets.tokens()[r] < probs.dims()[2],
    ensures
        old(losses).same_form(final(losses)),
        forall|r: int|
            0 <= r < probs.dims()[0] * probs.dims()[1] ==> #[trigger] final(losses).cells()[r]
                == row(probs.cells(), probs.dims()[2] as int, r)[targets.tokens()[r] as int].ln_spec().negated_spec(),
{
    let d = probs.dim(2);
    proof {
        lemma_size3(probs.dims());
        lemma_size2(losses.dims());
        lemma_size2(targets.dims());
    }
    let n = losses.real_len();
    let ghost lb = *losses;
    let mut r: usize = 0;
    while r < n
        invariant
            r <= n,
            n == probs.dims()[0] * probs.dims()[1],
            d == probs.dims()[2],
            probs.is_real(),
            probs.cells().len() == n * d,
            targets.is_index(),
            targets.tokens().len() == n,
            forall|r: int|
                0 <= r < targets.tokens().len() ==> #[trigger] targets.tokens()[r]
                    < probs.dims()[2],
            lb.same_form(losses),
            lb.is_real(),
            losses.cells().len() == n,
            forall|r2: int|
                0 <= r2 < r ==> #[trigger] losses.cells()[r2] == row(
                    probs.cells(),
                    d as int,
                    r2,
                )[targets.tokens()[r2] as int].ln_spec().negated_spec(),
        decreases n - r,
    {
        let _len = probs.real_len();
        let target = targets.token(r) as usize;
        proof {
            lemma_rows_apart(r as int, n as int, d as int);
            assert(row(probs.cells(), d as int, r as int)[target as int] == probs.cells()[r * d
                + target]);
        }
        losses.set(r, probs.cell(r * d + target).ln().negated());
        r += 1;
    }
}

/// What one row adds to the gradient of the logits: the probabilities, less one
/// at the target, times the gradient of the loss.
pub open spec fn logit_share<E: Scalar>(probs: Seq<E>, target: int, dloss: E) -> Seq<E> {
    Seq::new(
        probs.len(),
        |i: int|
            probs[i].minus_spec(
                if i == target {
                    E::one_spec()
                } else {
                    E::zero_spec()
                },
            ).times_spec(dloss),
    )
}

/// Goes back through cross entropy and softmax.
pub fn backward<E: Scalar>(
    dlogits: &mut Tensor<E>,
    dlosses: &Tensor<E>,
    probs: &Tensor<E>,
    targets: &Tensor<E>,
)
    requires
        old(dlogits).holds_reals(),
        dlosses.holds_reals(),
        probs.holds_reals(),
        targets.holds_tokens(),
        probs.dims().len() == 3,
        old(dlogits).dims() == probs.dims(),
        dlosses.dims() == probs.dims().take(2),
        targets.dims() == probs.dims().take(2),
    ensures
        old(dlogits).same_form(final(dlogits)),
        forall|r: int|
            0 <= r < probs.dims()[0] * probs.dims()[1] ==> #[trigger] row(
                final(dlogits).cells(),
                probs.dims()[2] as int,
                r,
            ) == accumulated(
                row(old(dlogits).cells(), probs.dims()[2] as int, r),
                0,
                logit_share(
                    row(probs.cells(), probs.dims()[2] as int, r),
                    targets.tokens()[r] as int,
                    dlosses.cells()[r],
                ),
            ),
{
    let d = probs.dim(2);
    proof {
        lemma_size3(probs.dims());
        lemma_size2(dlosses.dims());
        lemma_size2(targets.dims());
    }
    let n = dlosses.real_len();
    let ghost db = *dlogits;
    let mut r: usize = 0;
    while r < n
        invariant
            r <= n,
            n == probs.dims()[0] * probs.dims()[1],
            d == probs.dims()[2],
            probs.is_real(),
            probs.cells().len() == n * d,
            targets.is_index(),
            targets.tokens().len() == n,
            dlosses.is_real(),
            dlosses.cells().len() == n,
            db.same_form(dlogits),
            db.is_real(),
            dlogits.cells().len() == n * d,
            db.cells().len() == n * d,
            forall|r2: int|
                0 <= r2 < r ==> #[trigger] row(dlogits.cells(), d as int, r2) == accumulated(
                    row(db.cells(), d as int, r2),
                    0,
                    logit_share(
                        row(probs.cells(), d as int, r2),
                        targets.tokens()[r2] as int,
                        dlosses.cells()[r2],
                    ),
                ),
            forall|r2: int|
                r <= r2 < n ==> #[trigger] row(dlogits.cells(), d as int, r2) == row(
                    db.cells(),
                    d as int,
                    r2,
                ),
        decreases n - r,
    {
        let _len = probs.real_len();
        proof {
            lemma_rows_apart(r as int, n as int, d as int);
        }
        let target = targets.token(r) as usize;
        let dloss = dlosses.cell(r);
        let input = probs.segment(r * d, d);
        assert(input@ == row(probs.cells(), d as int, r as int));
        let mut out: Vec<E> = Vec::new();
        while out.len() < d
            invariant
                out.len() <= d,
                input.len() == d,
                forall|i: int|
                    0 <= i < out.len() ==> #[trigger] out@[i] == input@[i].minus_spec(
                        if i == target {
                            E::one_spec()
                        } else {
                            E::zero_spec()
                        },
                    ).times_spec(dloss),
            decreases d - out.len(),
        {
            let i: usize = out.len();
            let indicator = if i == target {
                E::one()
            } else {
                E::zero()
            };
            out.push(input[i].minus(&indicator).times(&dloss));
        }
        assert(out@ =~= logit_share(input@, target as int, dloss));
        proof {
            lemma_accumulated_row(dlogits.cells(), d as int, r as int, n as int, out@);
        }
        dlogits.accumulate(r * d, &out);
        r += 1;
    }
}

/// Whether `probs` are the probabilities that the logits stand for, and `losses`
/// what they cost at the targets.
pub open spec fn costs<E: Scalar>(
    logits: Content<E>,
    targets: Content<E>,
    mask: usize,
    probs: Content<E>,
    losses: Content<E>,
) -> bool {
    let d = logits.dims[2] as int;
    let n = logits.dims[0] * logits.dims[1];
    &&& probs.holds_reals() && probs.dims == logits.dims
    &&& losses.holds_reals() && losses.dims == logits.dims.take(2)
    &&& forall|r: int|
        0 <= r < n ==> #[trigger] row(probs.cells(), d, r) == masked_softmax(
            row(logits.cells(), d, r),
            mask as int,
        )
    &&& forall|r: int|
        0 <= r < n ==> #[trigger] losses.cells()[r] == masked_softmax(
            row(logits.cells(), d, r),
            mask as int,
        )[targets.tokens()[r] as int].ln_spec().negated_spec()
}

/// Whether `dlogits` is the gradient of the logits.
pub open spec fn costs_back<E: Scalar>(
    probs: Content<E>,
    targets: Content<E>,
    dlosses: Content<E>,
    dlogits: Content<E>,
) -> bool {
    let d = probs.dims[2] as int;
    &&& dlogits.holds_reals() && dlogits.dims == probs.dims
    &&& forall|r: int|
        0 <= r < probs.dims[0] * probs.dims[1] ==> #[trigger] row(dlogits.cells(), d, r)
            == accumulated(
            zeros(d),
            0,
            logit_share(
                row(probs.cells(), d, r),
                targets.tokens()[r] as int,
                dlosses.cells()[r],
            ),
        )
}

/// Cross entropy of the softmax of logits.
pub struct Loss<E> {
    /// The number of logits of a row that stand for a token.
    pub n_voc: usize,
    /// The targets, between going forward and backward.
    pub targets: Option<Rc<Tensor<E>>>,
    /// The probabilities, between going forward and backward.
    pub probs: Option<Tensor<E>>,
}

impl<E: Scalar> NeuralNetwork<E> for Loss<E> {
    type Init = usize;

    open spec fn inits(init: usize, before: State<E>, network: Self, after: State<E>) -> bool {
        &&& after == before
        &&& network == (Loss::<E> { n_voc: init, targets: None, probs: None })
    }

    open spec fn forward_accepts(self, inputs: Seq<Content<E>>, ctx: State<E>) -> bool {
        let (logits, targets) = (inputs[0], inputs[1]);
        &&& inputs.len() == 2
        &&& logits.holds_reals() && logits.dims.len() == 3
        &&& targets.holds_tokens() && targets.dims == logits.dims.take(2)
        &&& logits.dims[0] > 0 && logits.dims[1] > 0 ==> 0 < self.n_voc <= logits.dims[2]
        &&& forall|r: int|
            0 <= r < targets.tokens().len() ==> #[trigger] targets.tokens()[r] < logits.dims[2]
    }

    open spec fn forwards(
        before: (Self, State<E>),
        inputs: Seq<Content<E>>,
        after: (Self, State<E>),
        outputs: Seq<Content<E>>,
    ) -> bool {
        &&& after.1 == before.1
        &&& after.0.n_voc == before.0.n_voc
        &&& after.0.targets is Some && (*after.0.targets->0)@ == inputs[1]
        &&& after.0.probs is Some
        &&& outputs.len() == 1
        &&& costs(inputs[0], inputs[1], before.0.n_voc, (after.0.probs->0)@, outputs[0])
    }

    open spec fn backward_accepts(self, inputs: Seq<Content<E>>, ctx: State<E>) -> bool {
        let dlosses = inputs[0];
        let (targets, probs) = ((*self.targets->0)@, (self.probs->0)@);
        &&& inputs.len() == 1
        &&& self.targets is Some && self.probs is Some
        &&& probs.holds_reals() && probs.dims.len() == 3
        &&& targets.holds_tokens() && targets.dims == probs.dims.take(2)
        &&& dlosses.holds_reals() && dlosses.dims == probs.dims.take(2)
    }

    open spec fn backwards(
        before: (Self, State<E>),
        inputs: Seq<Content<E>>,
        after: (Self, State<E>),
        outputs: Seq<Content<E>>,
    ) -> bool {
        let layer = before.0;
        &&& after.1 == before.1
        &&& after.0 == (Loss::<E> { n_voc: layer.n_voc, targets: None, probs: None })
        &&& outputs.len() == 1
        &&& costs_back((layer.probs->0)@, (*layer.targets->0)@, inputs[0], outputs[0])
    }

    fn init(init: usize, ctx: &mut Context<E>) -> (network: Self) {
        Loss { n_voc: init, targets: None, probs: None }
    }

    fn forward(&mut self, inputs: Vec<Rc<Tensor<E>>>, ctx: &mut Context<E>) -> (outputs: Vec<
        Rc<Tensor<E>>,
    >) {
        let (logits, targets) = both(inputs);
        let mut probs = logits.zeroed_like();
        softmax(&mut probs, &logits, self.n_voc);
        let _len = targets.token_len();
        let shape = targets.shape();
        let mut losses = ctx.tensor(probs.digit(), shape.as_slice());
        crossentropy(&mut losses, &probs, &targets);
        proof {
            let d = logits.dims()[2] as int;
            let n = logits.dims()[0] * logits.dims()[1];
            assert forall|r: int| 0 <= r < n implies #[trigger] losses.cells()[r]
                == masked_softmax(
                row(logits.cells(), d, r),
                self.n_voc as int,
            )[targets.tokens()[r] as int].ln_spec().negated_spec() by {
                assert(row(probs.cells(), d, r) == masked_softmax(
                    row(logits.cells(), d, r),
                    self.n_voc as int,
                ));
            }
        }
        self.targets = Some(targets);
        self.probs = Some(probs);
        alone(losses)
    }

    fn backward(&mut self, inputs: Vec<Rc<Tensor<E>>>, ctx: &mut Context<E>) -> (outputs: Vec<
        Rc<Tensor<E>>,
    >) {
        let dlosses = only(inputs);
        let probs = self.probs.take().unwrap();
        let targets = self.targets.take().unwrap();
        let mut dlogits = probs.zeroed_like();
        backward(&mut dlogits, &dlosses, &probs, &targets);
        proof {
            let d = probs.dims()[2] as int;
            let n = probs.dims()[0] * probs.dims()[1];
            lemma_size3(probs.dims());
            assert forall|r: int| 0 <= r < n implies #[trigger] row(
                probs@.cleared().cells(),
                d,
                r,
            ) == zeros::<E>(d) by {
                lemma_rows_apart(r, n, d);
                assert(row(probs@.cleared().cells(), d, r) =~= zeros::<E>(d));
            }
        }
        alone(dlogits)
    }
}

/// Having gone forward, the layer can go backward from any gradient of the form
/// of its output.
pub proof fn law_forward_then_backward<E: Scalar>(
    before: (Loss<E>, State<E>),
    input: Content<E>,
    targets: Content<E>,
    after: (Loss<E>, State<E>),
    output: Content<E>,
    gradient: Content<E>,
)
    requires
        before.0.forward_accepts(seq![input, targets], before.1),
        Loss::<E>::forwards(before, seq![input, targets], after, seq![output]),
        gradient.wf(),
        gradient.same_form(output),
    ensures
        after.0.backward_accepts(seq![gradient], after.1),
{
}

/// Going backward gives one gradient, of the form of the input, and leaves the
/// layer as it was made: it has to go forward before it can go backward again.
pub proof fn law_backward_uses_up<E: Scalar>(
    before: (Loss<E>, State<E>),
    gradient: Content<E>,
    after: (Loss<E>, State<E>),
    outputs: Seq<Content<E>>,
)
    requires
        before.0.backward_accepts(seq![gradient], before.1),
        Loss::<E>::backwards(before, seq![gradient], after, outputs),
    ensures
        outputs.len() == 1,
        outputs[0].same_form((before.0.probs->0)@),
        Loss::<E>::inits(before.0.n_voc, after.1, after.0, after.1),
        forall|inputs: Seq<Content<E>>, ctx: State<E>|
            !(#[trigger] after.0.backward_accepts(inputs, ctx)),
{
}

/// What stands behind the mask has no influence, and gets probability zero.
pub proof fn law_mask_hides<E: Scalar>(xs: Seq<E>, ys: Seq<E>, mask: int)
    requires
        xs.len() == ys.len(),
        0 <= mask <= xs.len(),
        xs.take(mask) == ys.take(mask),
    ensures
        masked_softmax(xs, mask) == masked_softmax(ys, mask),
        masked_softmax(xs, mask).len() == xs.len(),
        forall|i: int|
            mask <= i < xs.len() ==> #[trigger] masked_softmax(xs, mask)[i] == E::zero_spec(),
{
}

} // verus!
