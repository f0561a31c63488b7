//! Causal self-attention.
use crate::context::Context;
use crate::nn::attention::backward::Operands;
use crate::nn::attention::forward::{
    attended, attention, heads_of, in_walk, mixed, shapes_fit, slice,
};
use crate::nn::{alone, only, NeuralNetwork};
use crate::scalar::{cell2, Scalar};
use crate::state::State;
use crate::tensor::{lemma_size3, size, Content, Tensor};
use crate::vector::{lemma_place_bound, zeros};
use std::rc::Rc;
use std::time::{Duration, Instant};
use vstd::prelude::*;

pub mod backward;
pub mod forward;
pub mod gradients;
pub mod laws;
pub mod reals;
pub mod values;

verus! {

/// Whether `y` is what attending to `x` gives, with the weights `att`.
pub open spec fn attends<E: Scalar>(x: Content<E>, y: Content<E>, att: Content<E>) -> bool {
    let g = heads_of(att.dims, x.dims);
    let n = g.n as int;
    &&& y.holds_reals() && y.dims == seq![x.dims[0], x.dims[1], g.d]
    &&& att.holds_reals() && att.dims == seq![x.dims[0], g.nh, x.dims[1], x.dims[1]]
    &&& forall|b: int, t: int, h: int|
        #![trigger g.out(b, t, h)]
        in_walk(g, x.dims[0] as int, b, t, h) ==> slice(y.cells(), g.out(b, t, h), g.dh as int)
            == mixed(x.cells(), g, b, h, attention(x.cells(), g, b, h, t))
    &&& forall|b: int, t: int, h: int|
        #![trigger g.weights(b, h, t)]
        in_walk(g, x.dims[0] as int, b, t, h) ==> slice(att.cells(), g.weights(b, h, t), n)
            == attention(x.cells(), g, b, h, t) + zeros::<E>(n - t - 1)
    &&& forall|r: int, c: int|
        0 <= r < x.dims[0] * g.n && g.nh * g.dh <= c < g.d ==> #[trigger] cell2(
            y.cells(),
            g.d as int,
            r,
            c,
        ) == E::zero_spec()
}

/// The operands of the gradient, where no gradient is known yet.
pub open spec fn operands<E: Scalar>(
    x: Content<E>,
    dy: Content<E>,
    att: Content<E>,
) -> Operands<E> {
    Operands {
        g: heads_of(att.dims, x.dims),
        x: x.cells(),
        dy: dy.cells(),
        att: att.cells(),
        datt: zeros(att.cells().len() as int),
        dpreatt: zeros(att.cells().len() as int),
    }
}

/// The gradient of the input.
pub open spec fn input_gradient<E: Scalar>(
    x: Content<E>,
    dy: Content<E>,
    att: Content<E>,
) -> Content<E> {
    x.with_cells(
        operands(x, dy, att).with_sequences(zeros(x.cells().len() as int), x.dims[0] as int),
    )
}

/// Causal self-attention with several heads.
pub struct Attention<E> {
    /// The number of heads.
    pub nh: usize,
    /// The input, between going forward and backward.
    pub x: Option<Rc<Tensor<E>>>,
    /// The weights, between going forward and backward.
    pub att: Option<Tensor<E>>,
}

impl<E: Scalar> NeuralNetwork<E> for Attention<E> {
    type Init = usize;

    open spec fn inits(init: usize, before: State<E>, network: Self, after: State<E>) -> bool {
        &&& after == before
        &&& network == (Attention::<E> { nh: init, x: None, att: None })
    }

    open spec fn forward_accepts(self, inputs: Seq<Content<E>>, ctx: State<E>) -> bool {
        let x = inputs[0];
        &&& inputs.len() == 1
        &&& x.holds_reals() && x.dims.len() == 3
        &&& self.nh > 0
        &&& size(seq![x.dims[0], self.nh, x.dims[1], x.dims[1]]) <= usize::MAX
    }

    open spec fn forwards(
        before: (Self, State<E>),
        inputs: Seq<Content<E>>,
        after: (Self, State<E>),
        outputs: Seq<Content<E>>,
    ) -> bool {
        let x = inputs[0];
        &&& before.1.benched(after.1)
        &&& after.0.nh == before.0.nh
        &&& after.0.x is Some && (*after.0.x->0)@ == x
        &&& after.0.att is Some && (after.0.att->0)@.dims == seq![
            x.dims[0],
            before.0.nh,
            x.dims[1],
            x.dims[1],
        ]
        &&& outputs.len() == 1
        &&& attends(x, outputs[0], (after.0.att->0)@)
    }

    open spec fn backward_accepts(self, inputs: Seq<Content<E>>, ctx: State<E>) -> bool {
        let dy = inputs[0];
        let (x, att) = ((*self.x->0)@, (self.att->0)@);
        &&& inputs.len() == 1
        &&& self.x is Some && self.att is Some
        &&& x.holds_reals() && dy.holds_reals() && att.holds_reals()
        &&& shapes_fit(dy.dims, att.dims, att.dims, x.dims)
        &&& att.dims[1] > 0
    }

    open spec fn backwards(
        before: (Self, State<E>),
        inputs: Seq<Content<E>>,
        after: (Self, State<E>),
        outputs: Seq<Content<E>>,
    ) -> bool {
        let (layer, ctx) = before;
        &&& ctx.benched(after.1)
        &&& after.0 == (Attention::<E> { nh: layer.nh, x: None, att: None })
        &&& outputs == seq![input_gradient((*layer.x->0)@, inputs[0], (layer.att->0)@)]
    }

    fn init(init: usize, ctx: &mut Context<E>) -> (network: Self) {
        Attention { nh: init, x: None, att: None }
    }

    fn forward(&mut self, inputs: Vec<Rc<Tensor<E>>>, ctx: &mut Context<E>) -> (outputs: Vec<
        Rc<Tensor<E>>,
    >) {
        let x = only(inputs);
        let (batch_size, n_seq, d3) = (x.dim(0), x.dim(1), x.dim(2));
        let d = d3 / 3;
        let _len = x.real_len();
        let (rows, pairs) = ([batch_size, n_seq, d], [batch_size, self.nh, n_seq, n_seq]);
        proof {
            lemma_size3(x.dims());
            lemma_size3(rows@);
            assert(batch_size * n_seq * d <= batch_size * n_seq * d3) by (nonlinear_arith)
                requires
                    d <= d3,
                    0 <= batch_size,
                    0 <= n_seq,
            ;
            assert(pairs@ =~= seq![x.dims()[0], self.nh, x.dims()[1], x.dims()[1]]);
        }
        let mut y = ctx.tensor_zeroed(x.digit(), &rows);
        let mut preatt = ctx.tensor_zeroed(x.digit(), &pairs);
        let mut att = ctx.tensor_zeroed(x.digit(), &pairs);
        let ghost (y0, preatt0) = (y.cells(), preatt.cells());
        let start = Instant::now();
        forward::forward(&mut y, &mut preatt, &mut att, &x);
        ctx.record(start);
        proof {
            let g = heads_of(att.dims(), x.dims());
            assert(y.dims() =~= seq![x.dims()[0], x.dims()[1], g.d]);
            assert forall|b: int, t: int, h: int|
                #![trigger g.out(b, t, h)]
                in_walk(g, batch_size as int, b, t, h) implies slice(
                y.cells(),
                g.out(b, t, h),
                g.dh as int,
            ) == mixed(x.cells(), g, b, h, attention(x.cells(), g, b, h, t)) by {
                assert(attended(
                    y.cells(),
                    preatt.cells(),
                    att.cells(),
                    x.cells(),
                    preatt0,
                    g,
                    b,
                    t,
                    h,
                ));
            }
            assert forall|b: int, t: int, h: int|
                #![trigger g.weights(b, h, t)]
                in_walk(g, batch_size as int, b, t, h) implies slice(
                att.cells(),
                g.weights(b, h, t),
                g.n as int,
            ) == attention(x.cells(), g, b, h, t) + zeros::<E>(g.n - t - 1) by {
                assert(attended(
                    y.cells(),
                    preatt.cells(),
                    att.cells(),
                    x.cells(),
                    preatt0,
                    g,
                    b,
                    t,
                    h,
                ));
            }
            assert forall|r: int, c: int|
                0 <= r < x.dims()[0] * g.n && g.nh * g.dh <= c < g.d implies #[trigger] cell2(
                y.cells(),
                g.d as int,
                r,
                c,
            ) == E::zero_spec() by {
                assert(0 <= g.nh * g.dh) by (nonlinear_arith)
                    requires
                        0 <= g.nh,
                        0 <= g.dh,
                ;
                lemma_place_bound(r, c, x.dims()[0] * g.n, g.d as int);
                assert(cell2(y0, g.d as int, r, c) == E::zero_spec());
            }
        }
        self.x = Some(x);
        self.att = Some(att);
        alone(y)
    }

    fn backward(&mut self, inputs: Vec<Rc<Tensor<E>>>, ctx: &mut Context<E>) -> (outputs: Vec<
        Rc<Tensor<E>>,
    >) {
        let dy = only(inputs);
        let x = self.x.take().unwrap();
        let mut dx = x.zeroed_like();
        let att = self.att.take().unwrap();
        let mut dpreatt = att.zeroed_like();
        let mut datt = att.zeroed_like();
        let start = Instant::now();
        backward::backward(&mut dx, &mut dpreatt, &mut datt, &dy, &x, &att);
        ctx.record(start);
        assert(dx@ == input_gradient(x@, dy@, att@));
        alone(dx)
    }
}

/// Having gone forward, the layer can go backward from any gradient of the form
/// of its output.
pub proof fn law_forward_then_backward<E: Scalar>(
    before: (Attention<E>, State<E>),
    input: Content<E>,
    after: (Attention<E>, State<E>),
    output: Content<E>,
    gradient: Content<E>,
)
    requires
        before.0.forward_accepts(seq![input], before.1),
        Attention::<E>::forwards(before, seq![input], after, seq![output]),
        gradient.wf(),
        gradient.same_form(output),
    ensures
        after.0.backward_accepts(seq![gradient], after.1),
{
    let took = choose|took: Duration| after.1 == #[trigger] before.1.timed(took);
}

/// Going backward gives one gradient, of the form of the input, and leaves the
/// layer as it was made: it has to go forward before it can go backward again.
pub proof fn law_backward_uses_up<E: Scalar>(
    before: (Attention<E>, State<E>),
    gradient: Content<E>,
    after: (Attention<E>, State<E>),
    outputs: Seq<Content<E>>,
)
    requires
        before.0.backward_accepts(seq![gradient], before.1),
        Attention::<E>::backwards(before, seq![gradient], after, outputs),
    ensures
        outputs.len() == 1,
        outputs[0].same_form((*before.0.x->0)@),
        Attention::<E>::inits(before.0.nh, after.1, after.0, after.1),
        forall|inputs: Seq<Content<E>>, ctx: State<E>|
            !(#[trigger] after.0.backward_accepts(inputs, ctx)),
{
}

} // verus!
