//! Normalisation of rows.
use crate::context::{Context, Shared};
use crate::nn::{alone, only, NeuralNetwork};
use crate::scalar::Scalar;
use crate::state::State;
use crate::tensor::{lemma_size1, lemma_size2, lemma_size3, Content, Tensor};
use crate::vector::{
    accumulated, law_summed_in_parts, lemma_accumulated_row, lemma_overwritten_row, lemma_rows_apart,
    lemma_summed_none, lemma_summed_push, multiply, products, row, rows_of, sum, sum_from, summed,
    zeros,
};
use std::rc::Rc;
use std::time::{Duration, Instant};
use vstd::prelude::*;

verus! {

/// The mean of a row.
pub open spec fn mean_of<E: Scalar>(x: Seq<E>, d: usize) -> E {
    sum_from(E::zero_spec(), x).over_spec(E::count_spec(d))
}

/// The number that keeps the variance of a row away from zero: one over a hundred
/// thousand.
pub open spec fn epsilon_of<E: Scalar>() -> E {
    E::one_spec().over_spec(E::count_spec(100_000))
}

/// Returns the number that keeps the variance of a row away from zero.
pub fn epsilon<E: Scalar>() -> (r: E)
    ensures
        r == epsilon_of::<E>(),
{
    E::one().over(&E::count(100_000))
}

/// The inverse standard deviation of a row: the mean of its squares less the
/// square of its mean, kept away from zero.
pub open spec fn rstd_of<E: Scalar>(x: Seq<E>, d: usize) -> E {
    let mean = mean_of(x, d);
    sum_from(E::zero_spec(), products(x, x)).over_spec(E::count_spec(d)).minus_spec(
        mean.times_spec(mean),
    ).plus_spec(epsilon_of()).rsqrt_spec()
}

/// A row moved to mean zero and deviation one, then scaled and moved.
pub open spec fn normalized<E: Scalar>(x: Seq<E>, w: Seq<E>, b: Seq<E>, d: usize) -> Seq<E> {
    let mean = mean_of(x, d);
    let rstd = rstd_of(x, d);
    Seq::new(
        x.len(),
        |i: int|
            rstd.times_spec(x[i].minus_spec(mean)).times_spec(w[i]).plus_spec(b[i]),
    )
}

/// Whether the shapes of the operands belong together.
pub open spec fn shapes_fit(
    y: Seq<usize>,
    mean: Seq<usize>,
    rstd: Seq<usize>,
    x: Seq<usize>,
    w: Seq<usize>,
    b: Seq<usize>,
) -> bool {
    &&& y.len() == 3
    &&& x == y
    &&& mean == y.take(2)
    &&& rstd == y.take(2)
    &&& w == seq![y[2]]
    &&& b == seq![y[2]]
}

/// Normalises every row of `x`, and keeps the mean and the inverse deviation of
/// each.
pub fn forward<E: Scalar>(
    y: &mut Tensor<E>,
    mean: &mut Tensor<E>,
    rstd: &mut Tensor<E>,
    x: &Tensor<E>,
    scalar: &Tensor<E>,
    bias: &Tensor<E>,
)
    requires
        old(y).holds_reals(),
        old(mean).holds_reals(),
        old(rstd).holds_reals(),
        x.holds_reals(),
        scalar.holds_reals(),
        bias.holds_reals(),
        shapes_fit(
            old(y).dims(),
            old(mean).dims(),
            old(rstd).dims(),
            x.dims(),
            scalar.dims(),
            bias.dims(),
        ),
    ensures
        old(y).same_form(final(y)),
        old(mean).same_form(final(mean)),
        old(rstd).same_form(final(rstd)),
        forall|r: int|
            0 <= r < x.dims()[0] * x.dims()[1] ==> #[trigger] row(
                final(y).cells(),
                x.dims()[2] as int,
                r,
            ) == normalized(
                row(x.cells(), x.dims()[2] as int, r),
                scalar.cells(),
                bias.cells(),
                x.dims()[2],
            ),
        forall|r: int|
            0 <= r < x.dims()[0] * x.dims()[1] ==> #[trigger] final(mean).cells()[r] == mean_of(
                row(x.cells(), x.dims()[2] as int, r),
                x.dims()[2],
            ),
        forall|r: int|
            0 <= r < x.dims()[0] * x.dims()[1] ==> #[trigger] final(rstd).cells()[r] == rstd_of(
                row(x.cells(), x.dims()[2] as int, r),
                x.dims()[2],
            ),
{
    let d = x.dim(2);
    proof {
        lemma_size3(x.dims());
        lemma_size2(mean.dims());
        lemma_size2(rstd.dims());
        lemma_size1(scalar.dims());
        lemma_size1(bias.dims());
    }
    let n = mean.real_len();
    let w = scalar.reals();
    let b = bias.reals();
    let ghost (yb, mb, rb) = (*y, *mean, *rstd);
    let mut r: usize = 0;
    while r < n
        invariant
            r <= n,
            n == x.dims()[0] * x.dims()[1],
            d == x.dims()[2],
            x.is_real(),
            x.cells().len() == n * d,
            w@ == scalar.cells(),
            b@ == bias.cells(),
            w.len() == d,
            b.len() == d,
            yb.same_form(y),
            mb.same_form(mean),
            rb.same_form(rstd),
            yb.is_real() && mb.is_real() && rb.is_real(),
            y.cells().len() == n * d,
            mean.cells().len() == n,
            rstd.cells().len() == n,
            forall|r2: int|
                0 <= r2 < r ==> #[trigger] row(y.cells(), d as int, r2) == normalized(
                    row(x.cells(), d as int, r2),
                    scalar.cells(),
                    bias.cells(),
                    d,
                ),
            forall|r2: int|
                0 <= r2 < r ==> #[trigger] mean.cells()[r2] == mean_of(
                    row(x.cells(), d as int, r2),
                    d,
                ),
            forall|r2: int|
                0 <= r2 < r ==> #[trigger] rstd.cells()[r2] == rstd_of(
                    row(x.cells(), d as int, r2),
                    d,
                ),
        decreases n - r,
    {
        let _len = x.real_len();
        proof {
            lemma_rows_apart(r as int, n as int, d as int);
        }
        let input = x.segment(r * d, d);
        assert(input@ == row(x.cells(), d as int, r as int));
        let total = sum(E::zero(), &input);
        let squares = sum(E::zero(), &multiply(&input, &input));
        let count = E::count(d);
        let mean_ = total.over(&count);
        let rstd_ = squares.over(&count).minus(&mean_.times(&mean_)).plus(&epsilon()).rsqrt();
        let mut out: Vec<E> = Vec::new();
        while out.len() < d
            invariant
                out.len() <= d,
                input.len() == d,
                w.len() == d,
                b.len() == d,
                forall|i: int|
                    0 <= i < out.len() ==> #[trigger] out@[i] == rstd_.times_spec(
                        input@[i].minus_spec(mean_),
                    ).times_spec(w@[i]).plus_spec(b@[i]),
            decreases d - out.len(),
        {
            let i: usize = out.len();
            out.push(rstd_.times(&input[i].minus(&mean_)).times(&w[i]).plus(&b[i]));
        }
        assert(out@ =~= normalized(input@, w@, b@, d));
        proof {
            lemma_overwritten_row(y.cells(), d as int, r as int, n as int, out@);
        }
        y.overwrite(r * d, &out);
        mean.set(r, mean_);
        rstd.set(r, rstd_);
        r += 1;
    }
}

/// A row moved to mean zero and deviation one.
pub open spec fn centered<E: Scalar>(x: Seq<E>, mean: E, rstd: E) -> Seq<E> {
    Seq::new(x.len(), |i: int| x[i].minus_spec(mean).times_spec(rstd))
}

/// What one row adds to the gradient of the input.
pub open spec fn input_share<E: Scalar>(
    x: Seq<E>,
    w: Seq<E>,
    dy: Seq<E>,
    mean: E,
    rstd: E,
    d: usize,
) -> Seq<E> {
    let norm = centered(x, mean, rstd);
    let dnorm = products(w, dy);
    let dnorm_mean = sum_from(E::zero_spec(), dnorm).over_spec(E::count_spec(d));
    let dnorm_norm_mean = sum_from(E::zero_spec(), products(norm, dnorm)).over_spec(
        E::count_spec(d),
    );
    Seq::new(
        x.len(),
        |i: int|
            rstd.times_spec(
                dnorm[i].minus_spec(dnorm_mean).minus_spec(norm[i].times_spec(dnorm_norm_mean)),
            ),
    )
}

/// What one row adds to the gradient of the scale.
pub open spec fn scale_share<E: Scalar>(x: Seq<E>, dy: Seq<E>, mean: E, rstd: E) -> Seq<E> {
    products(centered(x, mean, rstd), dy)
}

/// What each of the first `n` rows adds to the gradient of the scale.
pub open spec fn scale_shares<E: Scalar>(
    x: Seq<E>,
    dy: Seq<E>,
    mean: Seq<E>,
    rstd: Seq<E>,
    d: int,
    n: int,
) -> Seq<Seq<E>> {
    Seq::new(n as nat, |r: int| scale_share(row(x, d, r), row(dy, d, r), mean[r], rstd[r]))
}

/// Goes back through the normalisation: adds to the gradients of the input
/// (`dx`), the scale (`dw`) and the shift (`db`) what the gradient of the output
/// (`dy`) asks for, row by row.
pub fn backward<E: Scalar>(
    dx: &mut Tensor<E>,
    dw: &mut Tensor<E>,
    db: &mut Tensor<E>,
    dy: &Tensor<E>,
    x: &Tensor<E>,
    w: &Tensor<E>,
    mean: &Tensor<E>,
    rstd: &Tensor<E>,
)
    requires
        old(dx).holds_reals(),
        old(dw).holds_reals(),
        old(db).holds_reals(),
        dy.holds_reals(),
        x.holds_reals(),
        w.holds_reals(),
        mean.holds_reals(),
        rstd.holds_reals(),
        shapes_fit(old(dx).dims(), mean.dims(), rstd.dims(), x.dims(), w.dims(), old(db).dims()),
        dy.dims() == x.dims(),
        old(dw).dims() == w.dims(),
    ensures
        old(dx).same_form(final(dx)),
        old(dw).same_form(final(dw)),
        old(db).same_form(final(db)),
        forall|r: int|
            0 <= r < x.dims()[0] * x.dims()[1] ==> #[trigger] row(
                final(dx).cells(),
                x.dims()[2] as int,
                r,
            ) == accumulated(
                row(old(dx).cells(), x.dims()[2] as int, r),
                0,
                input_share(
                    row(x.cells(), x.dims()[2] as int, r),
                    w.cells(),
                    row(dy.cells(), x.dims()[2] as int, r),
                    mean.cells()[r],
                    rstd.cells()[r],
                    x.dims()[2],
                ),
            ),
        final(dw).cells() == summed(
            old(dw).cells(),
            scale_shares(
                x.cells(),
                dy.cells(),
                mean.cells(),
                rstd.cells(),
                x.dims()[2] as int,
                x.dims()[0] * x.dims()[1],
            ),
        ),
        final(db).cells() == summed(
            old(db).cells(),
            rows_of(dy.cells(), x.dims()[2] as int, x.dims()[0] * x.dims()[1]),
        ),
{
    let d = x.dim(2);
    proof {
        lemma_size3(x.dims());
        lemma_size2(mean.dims());
        lemma_size2(rstd.dims());
        lemma_size1(w.dims());
        lemma_size1(db.dims());
    }
    let n = mean.real_len();
    let ws = w.reals();
    let ghost (xb, wb, bb) = (*dx, *dw, *db);
    proof {
        lemma_summed_none(dw.cells());
        lemma_summed_none(db.cells());
        assert(scale_shares(x.cells(), dy.cells(), mean.cells(), rstd.cells(), d as int, 0)
            =~= Seq::empty());
        assert(rows_of(dy.cells(), d as int, 0) =~= Seq::empty());
    }
    let mut r: usize = 0;
    while r < n
        invariant
            r <= n,
            n == x.dims()[0] * x.dims()[1],
            d == x.dims()[2],
            x.is_real() && dy.is_real() && mean.is_real() && rstd.is_real(),
            x.cells().len() == n * d,
            dy.cells().len() == n * d,
            mean.cells().len() == n,
            rstd.cells().len() == n,
            ws@ == w.cells(),
            ws.len() == d,
            xb.same_form(dx),
            wb.same_form(dw),
            bb.same_form(db),
            xb.is_real() && wb.is_real() && bb.is_real(),
            dx.cells().len() == n * d,
            xb.cells().len() == n * d,
            dw.cells().len() == d,
            wb.cells().len() == d,
            db.cells().len() == d,
            bb.cells().len() == d,
            forall|r2: int|
                0 <= r2 < r ==> #[trigger] row(dx.cells(), d as int, r2) == accumulated(
                    row(xb.cells(), d as int, r2),
                    0,
                    input_share(
                        row(x.cells(), d as int, r2),
                        w.cells(),
                        row(dy.cells(), d as int, r2),
                        mean.cells()[r2],
                        rstd.cells()[r2],
                        d,
                    ),
                ),
            forall|r2: int|
                r <= r2 < n ==> #[trigger] row(dx.cells(), d as int, r2) == row(
                    xb.cells(),
                    d as int,
                    r2,
                ),
            dw.cells() == summed(
                wb.cells(),
                scale_shares(
                    x.cells(),
                    dy.cells(),
                    mean.cells(),
                    rstd.cells(),
                    d as int,
                    r as int,
                ),
            ),
            db.cells() == summed(bb.cells(), rows_of(dy.cells(), d as int, r as int)),
        decreases n - r,
    {
        let _len = x.real_len();
        proof {
            lemma_rows_apart(r as int, n as int, d as int);
        }
        let input = x.segment(r * d, d);
        let share = dy.segment(r * d, d);
        let mean_ = mean.cell(r);
        let rstd_ = rstd.cell(r);
        assert(input@ == row(x.cells(), d as int, r as int));
        assert(share@ == row(dy.cells(), d as int, r as int));
        let mut norm: Vec<E> = Vec::new();
        while norm.len() < d
            invariant
                norm.len() <= d,
                input.len() == d,
                forall|i: int|
                    0 <= i < norm.len() ==> #[trigger] norm@[i] == input@[i].minus_spec(
                        mean_,
                    ).times_spec(rstd_),
            decreases d - norm.len(),
        {
            let i: usize = norm.len();
            norm.push(input[i].minus(&mean_).times(&rstd_));
        }
        assert(norm@ =~= centered(input@, mean_, rstd_));
        let dnorm = multiply(&ws, &share);
        let count = E::count(d);
        let dnorm_mean = sum(E::zero(), &dnorm).over(&count);
        let dnorm_norm_mean = sum(E::zero(), &multiply(&norm, &dnorm)).over(&count);
        let mut out: Vec<E> = Vec::new();
        while out.len() < d
            invariant
                out.len() <= d,
                norm.len() == d,
                dnorm.len() == d,
                forall|i: int|
                    0 <= i < out.len() ==> #[trigger] out@[i] == rstd_.times_spec(
                        dnorm@[i].minus_spec(dnorm_mean).minus_spec(
                            norm@[i].times_spec(dnorm_norm_mean),
                        ),
                    ),
            decreases d - out.len(),
        {
            let i: usize = out.len();
            out.push(
                rstd_.times(&dnorm[i].minus(&dnorm_mean).minus(&norm[i].times(&dnorm_norm_mean))),
            );
        }
        assert(out@ =~= input_share(input@, ws@, share@, mean_, rstd_, d));
        let dw_share = multiply(&norm, &share);
        proof {
            let ri = r as int;
            let di = d as int;
            lemma_accumulated_row(dx.cells(), di, ri, n as int, out@);
            let shares = scale_shares(
                x.cells(),
                dy.cells(),
                mean.cells(),
                rstd.cells(),
                di,
                ri,
            );
            lemma_summed_push(wb.cells(), shares, dw_share@);
            assert(shares.push(dw_share@) =~= scale_shares(
                x.cells(),
                dy.cells(),
                mean.cells(),
                rstd.cells(),
                di,
                ri + 1,
            ));
            lemma_summed_push(bb.cells(), rows_of(dy.cells(), di, ri), share@);
            assert(rows_of(dy.cells(), di, ri).push(share@) =~= rows_of(dy.cells(), di, ri + 1));
        }
        db.accumulate(0, &share);
        dw.accumulate(0, &dw_share);
        dx.accumulate(r * d, &out);
        r += 1;
    }
}

/// Whether `y` is `x` normalised, with these means and inverse deviations.
pub open spec fn normalizes<E: Scalar>(
    x: Content<E>,
    w: Content<E>,
    b: Content<E>,
    y: Content<E>,
    mean: Content<E>,
    rstd: Content<E>,
) -> bool {
    let d = x.dims[2];
    let n = x.dims[0] * x.dims[1];
    &&& y.holds_reals() && y.dims == x.dims
    &&& mean.holds_reals() && mean.dims == x.dims.take(2)
    &&& rstd.holds_reals() && rstd.dims == x.dims.take(2)
    &&& forall|r: int|
        0 <= r < n ==> #[trigger] row(y.cells(), d as int, r) == normalized(
            row(x.cells(), d as int, r),
            w.cells(),
            b.cells(),
            d,
        )
    &&& forall|r: int|
        0 <= r < n ==> #[trigger] mean.cells()[r] == mean_of(row(x.cells(), d as int, r), d)
    &&& forall|r: int|
        0 <= r < n ==> #[trigger] rstd.cells()[r] == rstd_of(row(x.cells(), d as int, r), d)
}

/// Whether `dx` is the gradient of the input.
pub open spec fn returns_shares<E: Scalar>(
    x: Content<E>,
    w: Content<E>,
    dy: Content<E>,
    mean: Content<E>,
    rstd: Content<E>,
    dx: Content<E>,
) -> bool {
    let d = x.dims[2];
    &&& dx.holds_reals() && dx.dims == x.dims
    &&& forall|r: int|
        0 <= r < x.dims[0] * x.dims[1] ==> #[trigger] row(dx.cells(), d as int, r) == accumulated(
            zeros(d as int),
            0,
            input_share(
                row(x.cells(), d as int, r),
                w.cells(),
                row(dy.cells(), d as int, r),
                mean.cells()[r],
                rstd.cells()[r],
                d,
            ),
        )
}

/// Normalisation of rows, with a scale and a shift for each column.
pub struct LayerNorm<E> {
    /// The scale.
    pub w: Shared,
    /// The shift.
    pub b: Shared,
    /// The input, between going forward and backward.
    pub x: Option<Rc<Tensor<E>>>,
    /// The means, between going forward and backward.
    pub mean: Option<Tensor<E>>,
    /// The inverse deviations, between going forward and backward.
    pub rstd: Option<Tensor<E>>,
}

impl<E: Scalar> LayerNorm<E> {
    /// The context with the gradients of scale and shift registered.
    pub open spec fn registered(self, ctx: State<E>) -> State<E> {
        ctx.with_gradient("w"@, self.w.id).with_gradient("b"@, self.b.id)
    }

    /// What each row adds to the gradient of the scale.
    pub open spec fn scale_rows(self, dy: Content<E>) -> Seq<Seq<E>> {
        let (x, mean, rstd) = ((*self.x->0)@, (self.mean->0)@, (self.rstd->0)@);
        scale_shares(
            x.cells(),
            dy.cells(),
            mean.cells(),
            rstd.cells(),
            x.dims[2] as int,
            x.dims[0] * x.dims[1],
        )
    }

    /// What each row adds to the gradient of the shift.
    pub open spec fn shift_rows(self, dy: Content<E>) -> Seq<Seq<E>> {
        let x = (*self.x->0)@;
        rows_of(dy.cells(), x.dims[2] as int, x.dims[0] * x.dims[1])
    }

    /// The context with what the rows add to both gradients.
    pub open spec fn credited(self, dy: Content<E>, ctx: State<E>) -> State<E> {
        let ready = self.registered(ctx);
        let (dw, db) = (ready.gradient_cell(self.w.id), ready.gradient_cell(self.b.id));
        ready.with_tensor(
            dw,
            ready.tensors[dw].with_cells(
                summed(ready.tensors[dw].cells(), self.scale_rows(dy)),
            ),
        ).with_tensor(
            db,
            ready.tensors[db].with_cells(
                summed(ready.tensors[db].cells(), self.shift_rows(dy)),
            ),
        )
    }

    /// What a row adds has one number for each column.
    proof fn lemma_widths(self, dy: Content<E>)
        requires
            (*self.x->0)@.holds_reals(),
            (*self.x->0)@.dims.len() == 3,
            dy.holds_reals(),
            dy.dims == (*self.x->0)@.dims,
        ensures
            forall|r: int|
                0 <= r < self.scale_rows(dy).len() ==> (#[trigger] self.scale_rows(dy)[r]).len()
                    == dy.dims[2],
            forall|r: int|
                0 <= r < self.shift_rows(dy).len() ==> (#[trigger] self.shift_rows(dy)[r]).len()
                    == dy.dims[2],
    {
        let (d, n) = (dy.dims[2] as int, dy.dims[0] * dy.dims[1]);
        lemma_size3(dy.dims);
        assert forall|r: int| 0 <= r < self.scale_rows(dy).len() implies (
        #[trigger] self.scale_rows(dy)[r]).len() == d by {
            lemma_rows_apart(r, n, d);
        }
        assert forall|r: int| 0 <= r < self.shift_rows(dy).len() implies (
        #[trigger] self.shift_rows(dy)[r]).len() == d by {
            lemma_rows_apart(r, n, d);
        }
    }

    /// Whether scale and shift are held, one number for each column.
    pub open spec fn weights_fit(self, ctx: State<E>, d: usize) -> bool {
        &&& ctx.tensors.contains_key(self.w.id)
        &&& ctx.tensors.contains_key(self.b.id)
        &&& ctx.tensors[self.w.id].is_real() && ctx.tensors[self.w.id].dims == seq![d]
        &&& ctx.tensors[self.b.id].is_real() && ctx.tensors[self.b.id].dims == seq![d]
    }
}

impl<E: Scalar> NeuralNetwork<E> for LayerNorm<E> {
    type Init = [Shared; 2];

    open spec fn inits(
        init: [Shared; 2],
        before: State<E>,
        network: Self,
        after: State<E>,
    ) -> bool {
        &&& after == before
        &&& network == (LayerNorm::<E> { w: init[0], b: init[1], x: None, mean: None, rstd: None })
    }

    open spec fn forward_accepts(self, inputs: Seq<Content<E>>, ctx: State<E>) -> bool {
        let x = inputs[0];
        &&& inputs.len() == 1
        &&& x.holds_reals() && x.dims.len() == 3
        &&& x.dims[0] * x.dims[1] <= usize::MAX
        &&& self.weights_fit(ctx, x.dims[2])
    }

    open spec fn forwards(
        before: (Self, State<E>),
        inputs: Seq<Content<E>>,
        after: (Self, State<E>),
        outputs: Seq<Content<E>>,
    ) -> bool {
        let (layer, ctx) = before;
        &&& ctx.benched(after.1)
        &&& after.0.w == layer.w && after.0.b == layer.b
        &&& after.0.x is Some && (*after.0.x->0)@ == inputs[0]
        &&& after.0.mean is Some && after.0.rstd is Some
        &&& outputs.len() == 1
        &&& normalizes(
            inputs[0],
            ctx.tensors[layer.w.id],
            ctx.tensors[layer.b.id],
            outputs[0],
            (after.0.mean->0)@,
            (after.0.rstd->0)@,
        )
    }

    open spec fn backward_accepts(self, inputs: Seq<Content<E>>, ctx: State<E>) -> bool {
        let dy = inputs[0];
        let (x, mean, rstd) = ((*self.x->0)@, (self.mean->0)@, (self.rstd->0)@);
        &&& inputs.len() == 1
        &&& self.x is Some && self.mean is Some && self.rstd is Some
        &&& x.holds_reals() && x.dims.len() == 3
        &&& dy.holds_reals() && dy.dims == x.dims
        &&& mean.holds_reals() && mean.dims == x.dims.take(2)
        &&& rstd.holds_reals() && rstd.dims == x.dims.take(2)
        &&& self.weights_fit(ctx, x.dims[2])
        &&& self.w != self.b
        &&& ctx.info(self.b.id).gradient != Some(self.w.id)
        &&& ctx.next + 2 <= u64::MAX
    }

    open spec fn backwards(
        before: (Self, State<E>),
        inputs: Seq<Content<E>>,
        after: (Self, State<E>),
        outputs: Seq<Content<E>>,
    ) -> bool {
        let (layer, ctx) = before;
        let dy = inputs[0];
        let (x, mean, rstd) = ((*layer.x->0)@, (layer.mean->0)@, (layer.rstd->0)@);
        &&& layer.credited(dy, ctx).benched(after.1)
        &&& after.0 == (LayerNorm::<E> {
            w: layer.w,
            b: layer.b,
            x: None,
            mean: None,
            rstd: None,
        })
        &&& outputs.len() == 1
        &&& returns_shares(x, ctx.tensors[layer.w.id], dy, mean, rstd, outputs[0])
    }

    fn init(init: [Shared; 2], ctx: &mut Context<E>) -> (network: Self) {
        LayerNorm { w: init[0], b: init[1], x: None, mean: None, rstd: None }
    }

    fn forward(&mut self, inputs: Vec<Rc<Tensor<E>>>, ctx: &mut Context<E>) -> (outputs: Vec<
        Rc<Tensor<E>>,
    >) {
        let x = only(inputs);
        proof {
            lemma_size3(x.dims());
            lemma_size2(x.dims().take(2));
        }
        let _len = x.real_len();
        let (rows, all) = ([x.dim(0), x.dim(1)], [x.dim(0), x.dim(1), x.dim(2)]);
        assert(rows@ =~= x.dims().take(2));
        assert(all@ =~= x.dims());
        let mut y = ctx.tensor(x.digit(), &all);
        let mut mean = ctx.tensor(x.digit(), &rows);
        let mut rstd = ctx.tensor(x.digit(), &rows);
        let start = Instant::now();
        forward(&mut y, &mut mean, &mut rstd, &x, ctx.read(self.w), ctx.read(self.b));
        ctx.record(start);
        self.x = Some(x);
        self.mean = Some(mean);
        self.rstd = Some(rstd);
        alone(y)
    }

    fn backward(&mut self, inputs: Vec<Rc<Tensor<E>>>, ctx: &mut Context<E>) -> (outputs: Vec<
        Rc<Tensor<E>>,
    >) {
        let dy = only(inputs);
        let x = self.x.take().unwrap();
        let mean = self.mean.take().unwrap();
        let rstd = self.rstd.take().unwrap();
        let mut dx = x.zeroed_like();
        let dw = ctx.write_gradient("w", self.w);
        let db = ctx.write_gradient("b", self.b);
        let mut dw_tensor = ctx.take(dw);
        let mut db_tensor = ctx.take(db);
        let start = Instant::now();
        backward(
            &mut dx,
            &mut dw_tensor,
            &mut db_tensor,
            &dy,
            &x,
            ctx.read(self.w),
            &mean,
            &rstd,
        );
        ctx.put(dw, dw_tensor);
        ctx.put(db, db_tensor);
        proof {
            let (d, n) = (x.dims()[2] as int, x.dims()[0] * x.dims()[1]);
            assert(ctx@.tensors =~= old(self).credited(dy@, old(ctx)@).tensors);
            lemma_size3(x.dims());
            assert forall|r: int| 0 <= r < n implies #[trigger] row(x@.cleared().cells(), d, r)
                == zeros::<E>(d) by {
                lemma_rows_apart(r, n, d);
                assert(row(x@.cleared().cells(), d, r) =~= zeros::<E>(d));
            }
        }
        ctx.record(start);
        alone(dx)
    }
}

/// Having gone forward, the layer can go backward from any gradient of the form
/// of its output.
pub proof fn law_forward_then_backward<E: Scalar>(
    before: (LayerNorm<E>, State<E>),
    input: Content<E>,
    after: (LayerNorm<E>, State<E>),
    output: Content<E>,
    gradient: Content<E>,
)
    requires
        before.0.forward_accepts(seq![input], before.1),
        LayerNorm::<E>::forwards(before, seq![input], after, seq![output]),
        gradient.wf(),
        gradient.same_form(output),
        before.0.w != before.0.b,
        before.1.info(before.0.b.id).gradient != Some(before.0.w.id),
        before.1.next + 2 <= u64::MAX,
    ensures
        after.0.backward_accepts(seq![gradient], after.1),
{
    let took = choose|took: Duration| after.1 == #[trigger] before.1.timed(took);
}

/// Going backward gives one gradient, of the form of the input, and leaves the
/// layer as it was made: it has to go forward before it can go backward again.
pub proof fn law_backward_uses_up<E: Scalar>(
    before: (LayerNorm<E>, State<E>),
    gradient: Content<E>,
    after: (LayerNorm<E>, State<E>),
    outputs: Seq<Content<E>>,
)
    requires
        before.0.backward_accepts(seq![gradient], before.1),
        LayerNorm::<E>::backwards(before, seq![gradient], after, outputs),
    ensures
        outputs.len() == 1,
        outputs[0].same_form((*before.0.x->0)@),
        LayerNorm::<E>::inits([before.0.w, before.0.b], after.1, after.0, after.1),
        forall|inputs: Seq<Content<E>>, ctx: State<E>|
            !(#[trigger] after.0.backward_accepts(inputs, ctx)),
{
}

/// The gradients of scale and shift add up over passes: where they are kept
/// between two of them, they hold in the end what they started from and the
/// shares of all rows of both.
pub proof fn law_gradients_add_up<E: Scalar>(
    first: (LayerNorm<E>, State<E>),
    dy1: Content<E>,
    middle: (LayerNorm<E>, State<E>),
    outputs1: Seq<Content<E>>,
    second: (LayerNorm<E>, State<E>),
    dy2: Content<E>,
    last: (LayerNorm<E>, State<E>),
    outputs2: Seq<Content<E>>,
)
    requires
        first.1.consistent(),
        first.0.backward_accepts(seq![dy1], first.1),
        LayerNorm::<E>::backwards(first, seq![dy1], middle, outputs1),
        second.0.w == first.0.w,
        second.0.b == first.0.b,
        second.1.consistent(),
        middle.1.keeps_gradient(second.1, first.0.w.id),
        middle.1.keeps_gradient(second.1, first.0.b.id),
        second.0.backward_accepts(seq![dy2], second.1),
        LayerNorm::<E>::backwards(second, seq![dy2], last, outputs2),
    ensures
        ({
            let ready = first.0.registered(first.1);
            let (dw, db) = (ready.gradient_cell(first.0.w.id), ready.gradient_cell(first.0.b.id));
            &&& last.1.tensors[dw].cells() == summed(
                ready.tensors[dw].cells(),
                first.0.scale_rows(dy1) + second.0.scale_rows(dy2),
            )
            &&& last.1.tensors[db].cells() == summed(
                ready.tensors[db].cells(),
                first.0.shift_rows(dy1) + second.0.shift_rows(dy2),
            )
        }),
{
    let ready = first.0.registered(first.1);
    let (w, b) = (first.0.w.id, first.0.b.id);
    let (dw, db) = (ready.gradient_cell(w), ready.gradient_cell(b));
    first.1.law_gradients_apart("w"@, w, "b"@, b);
    let took = choose|took: Duration|
        middle.1 == #[trigger] first.0.credited(dy1, first.1).timed(took);
    let took2 = choose|took: Duration|
        last.1 == #[trigger] second.0.credited(dy2, second.1).timed(took);
    let again = second.0.registered(second.1);
    assert(again.gradient_cell(w) == dw && again.gradient_cell(b) == db);
    assert(again.tensors == second.1.tensors);
    assert(second.1.weights.contains_key(w) && second.1.weights.contains_key(b));
    first.0.lemma_widths(dy1);
    second.0.lemma_widths(dy2);
    lemma_size1(ready.tensors[dw].dims);
    lemma_size1(ready.tensors[db].dims);
    law_summed_in_parts(
        ready.tensors[dw].cells(),
        first.0.scale_rows(dy1),
        second.0.scale_rows(dy2),
    );
    law_summed_in_parts(
        ready.tensors[db].cells(),
        first.0.shift_rows(dy1),
        second.0.shift_rows(dy2),
    );
}

/// Forward and backward, twice: each backward gives the gradient of its own input
/// alone, the gradients of scale and shift hold the shares of both, starting from
/// zero where there were none, the weights are known by their names, and the
/// layer cannot go backward once more.
pub proof fn law_two_passes<E: Scalar>(
    start: (LayerNorm<E>, State<E>),
    x1: Content<E>,
    f1: (LayerNorm<E>, State<E>),
    y1: Content<E>,
    dy1: Content<E>,
    b1: (LayerNorm<E>, State<E>),
    dx1: Content<E>,
    x2: Content<E>,
    f2: (LayerNorm<E>, State<E>),
    y2: Content<E>,
    dy2: Content<E>,
    b2: (LayerNorm<E>, State<E>),
    dx2: Content<E>,
)
    requires
        start.1.consistent(),
        start.0.forward_accepts(seq![x1], start.1),
        LayerNorm::<E>::forwards(start, seq![x1], f1, seq![y1]),
        f1.0.backward_accepts(seq![dy1], f1.1),
        LayerNorm::<E>::backwards(f1, seq![dy1], b1, seq![dx1]),
        b1.0.forward_accepts(seq![x2], b1.1),
        LayerNorm::<E>::forwards(b1, seq![x2], f2, seq![y2]),
        f2.0.backward_accepts(seq![dy2], f2.1),
        LayerNorm::<E>::backwards(f2, seq![dy2], b2, seq![dx2]),
    ensures
        ({
            let (w, b) = (start.0.w.id, start.0.b.id);
            let ready = start.0.registered(start.1);
            let (dw, db) = (ready.gradient_cell(w), ready.gradient_cell(b));
            let scale = start.1.tensors[w];
            let d = x1.dims[2] as int;
            &&& b2.1.tensors[dw].cells() == summed(
                ready.tensors[dw].cells(),
                f1.0.scale_rows(dy1) + f2.0.scale_rows(dy2),
            )
            &&& b2.1.tensors[db].cells() == summed(
                ready.tensors[db].cells(),
                rows_of(dy1.cells(), d, x1.dims[0] * x1.dims[1]) + rows_of(
                    dy2.cells(),
                    d,
                    x2.dims[0] * x2.dims[1],
                ),
            )
            &&& start.1.info(w).gradient is None ==> ready.tensors[dw].cells() == zeros::<E>(d)
            &&& start.1.info(b).gradient is None ==> ready.tensors[db].cells() == zeros::<E>(d)
            &&& b2.1.info(w).names.contains(start.1.full_name("w"@))
            &&& b2.1.info(b).names.contains(start.1.full_name("b"@))
            &&& returns_shares(x1, scale, dy1, (f1.0.mean->0)@, (f1.0.rstd->0)@, dx1)
            &&& returns_shares(
                x2,
                b1.1.tensors[w],
                dy2,
                (f2.0.mean->0)@,
                (f2.0.rstd->0)@,
                dx2,
            )
        }),
        forall|inputs: Seq<Content<E>>, ctx: State<E>|
            !(#[trigger] b2.0.backward_accepts(inputs, ctx)),
{
    let (w, b) = (start.0.w.id, start.0.b.id);
    let ready = start.0.registered(start.1);
    let (dw, db) = (ready.gradient_cell(w), ready.gradient_cell(b));
    let t1 = choose|took: Duration| f1.1 == #[trigger] start.1.timed(took);
    let t2 = choose|took: Duration| b1.1 == #[trigger] f1.0.credited(dy1, f1.1).timed(took);
    let t3 = choose|took: Duration| f2.1 == #[trigger] b1.1.timed(took);
    let t4 = choose|took: Duration| b2.1 == #[trigger] f2.0.credited(dy2, f2.1).timed(took);
    let ready1 = f1.0.registered(f1.1);
    assert(ready1.weights == ready.weights && ready1.tensors == ready.tensors);
    start.1.law_gradients_apart("w"@, w, "b"@, b);
    law_gradients_add_up(f1, dy1, b1, seq![dx1], f2, dy2, b2, seq![dx2]);
    lemma_size1(start.1.tensors[w].dims);
    lemma_size1(start.1.tensors[b].dims);
    assert(seq![dx1][0] == dx1 && seq![dx2][0] == dx2);
}

} // verus!
