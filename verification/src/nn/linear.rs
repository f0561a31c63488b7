//! Affine maps of rows.
use crate::context::{Context, Shared};
use crate::nn::{alone, only, NeuralNetwork};
use crate::scalar::{cell2, spot, strided, Scalar};
use crate::state::State;
use crate::tensor::{lemma_size1, lemma_size2, lemma_size3, size, Content, Tensor};
use crate::vector::{
    law_summed_in_parts, lemma_overwritten_row, lemma_place_bound, lemma_rows_apart,
    lemma_summed_none, lemma_summed_push, overwrite, row, rows_of, summed, zeros,
};
use std::rc::Rc;
use std::time::{Duration, Instant};
use vstd::prelude::*;

verus! {

/// The first `k` elements of column `j` of a dense row-major matrix with `n`
/// columns.
pub open spec fn column<T>(cells: Seq<T>, n: int, j: int, k: int) -> Seq<T> {
    Seq::new(k as nat, |p: int| cells[p * n + j])
}

/// What is added to the product in column `j`.
pub open spec fn start_of<E: Scalar>(bias: Option<Content<E>>, j: int) -> Option<E> {
    match bias {
        Some(bias) => Some(bias.cells()[j]),
        None => None,
    }
}

/// What the bias holds, where there is one.
pub open spec fn bias_content<E: Scalar>(bias: Option<&Tensor<E>>) -> Option<Content<E>> {
    match bias {
        Some(bias) => Some(bias@),
        None => None,
    }
}

/// Fills `m` rows with the same values.
fn fill_rows<E: Scalar>(values: &Vec<E>, m: usize, cells: &mut Vec<E>)
    requires
        old(cells)@.len() == m * values@.len(),
    ensures
        final(cells)@.len() == m * values@.len(),
        forall|i: int|
            0 <= i < m ==> #[trigger] row(final(cells)@, values@.len() as int, i) == values@,
{
    let n = values.len();
    let mut i: usize = 0;
    while i < m
        invariant
            i <= m,
            n == values@.len(),
            cells@.len() == m * n,
            forall|i2: int| 0 <= i2 < i ==> #[trigger] row(cells@, n as int, i2) == values@,
        decreases m - i,
    {
        let _len = cells.len();
        proof {
            lemma_rows_apart(i as int, m as int, n as int);
            lemma_overwritten_row(cells@, n as int, i as int, m as int, values@);
        }
        overwrite(cells, i * n, values);
        i += 1;
    }
}

/// A matrix by rows: row stride `k`, column stride one.
proof fn lemma_by_rows<E>(cells: Seq<E>, m: int, k: int)
    requires
        0 <= m,
        0 <= k,
        cells.len() == m * k,
    ensures
        forall|i: int, p: int|
            0 <= i < m && 0 <= p < k ==> 0 <= #[trigger] spot(i, k, p, 1) < cells.len(),
        forall|p: int, i: int|
            0 <= p < k && 0 <= i < m ==> 0 <= #[trigger] spot(p, 1, i, k) < cells.len(),
        forall|i: int| 0 <= i < m ==> strided(cells, i * k, 1, k) == #[trigger] row(cells, k, i),
{
    assert forall|i: int, p: int| 0 <= i < m && 0 <= p < k implies 0 <= #[trigger] spot(
        i,
        k,
        p,
        1,
    ) < cells.len() by {
        lemma_place_bound(i, p, m, k);
    }
    assert forall|p: int, i: int| 0 <= p < k && 0 <= i < m implies 0 <= #[trigger] spot(
        p,
        1,
        i,
        k,
    ) < cells.len() by {
        lemma_place_bound(i, p, m, k);
    }
    assert forall|i: int| 0 <= i < m implies strided(cells, i * k, 1, k) == #[trigger] row(
        cells,
        k,
        i,
    ) by {
        lemma_rows_apart(i, m, k);
        assert(strided(cells, i * k, 1, k) =~= row(cells, k, i));
    }
}

/// A matrix by columns: row stride one, column stride `n`.
proof fn lemma_by_columns<E>(cells: Seq<E>, k: int, n: int)
    requires
        0 <= k,
        0 <= n,
        cells.len() == k * n,
    ensures
        forall|j: int, p: int|
            0 <= j < n && 0 <= p < k ==> 0 <= #[trigger] spot(j, 1, p, n) < cells.len(),
        forall|p: int, j: int|
            0 <= p < k && 0 <= j < n ==> 0 <= #[trigger] spot(p, n, j, 1) < cells.len(),
        forall|j: int|
            0 <= j < n ==> strided(cells, j * 1, n, k) == #[trigger] column(cells, n, j, k),
{
    assert forall|j: int, p: int| 0 <= j < n && 0 <= p < k implies 0 <= #[trigger] spot(
        j,
        1,
        p,
        n,
    ) < cells.len() by {
        lemma_place_bound(p, j, k, n);
    }
    assert forall|p: int, j: int| 0 <= p < k && 0 <= j < n implies 0 <= #[trigger] spot(
        p,
        n,
        j,
        1,
    ) < cells.len() by {
        lemma_place_bound(p, j, k, n);
    }
    assert forall|j: int| 0 <= j < n implies strided(cells, j * 1, n, k) == #[trigger] column(
        cells,
        n,
        j,
        k,
    ) by {
        assert(strided(cells, j * 1, n, k) =~= column(cells, n, j, k));
    }
}

/// Whether the shapes of the operands belong together.
pub open spec fn shapes_fit(y: Seq<usize>, x: Seq<usize>, w: Seq<usize>) -> bool {
    &&& y.len() == 3
    &&& x.len() == 3
    &&& w.len() == 2
    &&& y[0] == x[0]
    &&& y[1] == x[1]
    &&& y[2] == w[0]
    &&& x[2] == w[1]
    &&& x[0] * x[1] <= usize::MAX
}

/// Multiplies every row of `x` with every row of `weight`, and adds the bias
/// where there is one.
pub fn forward<E: Scalar>(
    y: &mut Tensor<E>,
    x: &Tensor<E>,
    weight: &Tensor<E>,
    bias: Option<&Tensor<E>>,
)
    requires
        old(y).holds_reals(),
        x.holds_reals(),
        weight.holds_reals(),
        shapes_fit(old(y).dims(), x.dims(), weight.dims()),
        bias matches Some(bias) ==> bias.holds_reals() && bias.dims() == seq![weight.dims()[0]],
    ensures
        old(y).same_form(final(y)),
        forall|i: int, j: int|
            0 <= i < x.dims()[0] * x.dims()[1] && 0 <= j < weight.dims()[0] ==> E::accumulates(
                start_of(bias_content(bias), j),
                row(x.cells(), weight.dims()[1] as int, i),
                row(weight.cells(), weight.dims()[1] as int, j),
                #[trigger] cell2(final(y).cells(), weight.dims()[0] as int, i, j),
            ),
{
    let m = x.dim(0) * x.dim(1);
    let n = weight.dim(0);
    let k = weight.dim(1);
    proof {
        lemma_size3(y.dims());
        lemma_size3(x.dims());
        lemma_size2(weight.dims());
    }
    let mut dst = y.reals();
    if let Some(bias) = bias {
        proof {
            lemma_size1(bias.dims());
        }
        let values = bias.reals();
        fill_rows(&values, m, &mut dst);
    }
    let ghost filled = dst@;
    let lhs = x.reals();
    let rhs = weight.reals();
    proof {
        lemma_by_rows(lhs@, m as int, k as int);
        lemma_by_rows(rhs@, n as int, k as int);
    }
    E::gemm(m, n, k, &mut dst, bias.is_some(), &lhs, 1, k, &rhs, k, 1);
    proof {
        assert forall|i: int, j: int|
            0 <= i < x.dims()[0] * x.dims()[1] && 0 <= j < weight.dims()[0] implies E::accumulates(
            start_of(bias_content(bias), j),
            row(x.cells(), weight.dims()[1] as int, i),
            row(weight.cells(), weight.dims()[1] as int, j),
            #[trigger] cell2(dst@, weight.dims()[0] as int, i, j),
        ) by {
            assert(strided(lhs@, i * k, 1, k as int) == row(lhs@, k as int, i));
            assert(strided(rhs@, j * k, 1, k as int) == row(rhs@, k as int, j));
            if let Some(bias) = bias {
                lemma_rows_apart(i, m as int, n as int);
                assert(row(filled, n as int, i) == bias.cells());
                assert(row(filled, n as int, i)[j] == cell2(filled, n as int, i, j));
            }
        }
    }
    y.assign(dst);
}

/// Goes back through the map: sets the gradients of the input (`dx`) and of the
/// weight (`dw`) to products with the gradient of the output (`dy`), and adds
/// the rows of the latter to the gradient of the bias (`db`) where there is one.
pub fn backward<E: Scalar>(
    dx: &mut Tensor<E>,
    dw: &mut Tensor<E>,
    db: Option<Tensor<E>>,
    dy: &Tensor<E>,
    x: &Tensor<E>,
    w: &Tensor<E>,
) -> (db_after: Option<Tensor<E>>)
    requires
        old(dx).holds_reals(),
        old(dw).holds_reals(),
        dy.holds_reals(),
        x.holds_reals(),
        w.holds_reals(),
        shapes_fit(dy.dims(), x.dims(), w.dims()),
        old(dx).dims() == x.dims(),
        old(dw).dims() == w.dims(),
        db matches Some(db) ==> db.holds_reals() && db.dims() == seq![w.dims()[0]],
    ensures
        old(dx).same_form(final(dx)),
        old(dw).same_form(final(dw)),
        db_after is Some <==> db is Some,
        forall|i: int, j: int|
            0 <= i < x.dims()[0] * x.dims()[1] && 0 <= j < w.dims()[1] ==> E::accumulates(
                None,
                row(dy.cells(), w.dims()[0] as int, i),
                column(w.cells(), w.dims()[1] as int, j, w.dims()[0] as int),
                #[trigger] cell2(final(dx).cells(), w.dims()[1] as int, i, j),
            ),
        forall|i: int, j: int|
            0 <= i < w.dims()[0] && 0 <= j < w.dims()[1] ==> E::accumulates(
                None,
                column(dy.cells(), w.dims()[0] as int, i, x.dims()[0] * x.dims()[1]),
                column(x.cells(), w.dims()[1] as int, j, x.dims()[0] * x.dims()[1]),
                #[trigger] cell2(final(dw).cells(), w.dims()[1] as int, i, j),
            ),
        db matches Some(db) ==> {
            &&& db.same_form(&db_after->0)
            &&& (db_after->0).cells() == summed(
                db.cells(),
                rows_of(dy.cells(), w.dims()[0] as int, x.dims()[0] * x.dims()[1]),
            )
        },
{
    let m = x.dim(0) * x.dim(1);
    let k = w.dim(0);
    let n = w.dim(1);
    proof {
        lemma_size3(dy.dims());
        lemma_size3(x.dims());
        lemma_size2(w.dims());
    }
    let dys = dy.reals();
    let ws = w.reals();
    let xs = x.reals();
    proof {
        lemma_by_rows(dys@, m as int, k as int);
        lemma_by_columns(dys@, m as int, k as int);
        lemma_by_columns(ws@, k as int, n as int);
        lemma_by_columns(xs@, m as int, n as int);
    }
    let mut dst = dx.reals();
    E::gemm(m, n, k, &mut dst, false, &dys, 1, k, &ws, 1, n);
    proof {
        assert forall|i: int, j: int| 0 <= i < m && 0 <= j < n implies E::accumulates(
            None,
            row(dys@, k as int, i),
            column(ws@, n as int, j, k as int),
            #[trigger] cell2(dst@, n as int, i, j),
        ) by {
            assert(strided(dys@, i * k, 1, k as int) == row(dys@, k as int, i));
            assert(strided(ws@, j * 1, n as int, k as int) == column(
                ws@,
                n as int,
                j,
                k as int,
            ));
        }
    }
    dx.assign(dst);
    let mut dst = dw.reals();
    E::gemm(k, n, m, &mut dst, false, &dys, k, 1, &xs, 1, n);
    proof {
        assert forall|i: int, j: int| 0 <= i < k && 0 <= j < n implies E::accumulates(
            None,
            column(dys@, k as int, i, m as int),
            column(xs@, n as int, j, m as int),
            #[trigger] cell2(dst@, n as int, i, j),
        ) by {
            assert(strided(dys@, i * 1, k as int, m as int) == column(
                dys@,
                k as int,
                i,
                m as int,
            ));
            assert(strided(xs@, j * 1, n as int, m as int) == column(
                xs@,
                n as int,
                j,
                m as int,
            ));
        }
    }
    dw.assign(dst);
    match db {
        Some(db) => {
            let mut db = db;
            backward_bias(&mut db, dy, m, k);
            Some(db)
        },
        None => None,
    }
}

/// Adds `m` rows of `dy` to `db`.
fn backward_bias<E: Scalar>(db: &mut Tensor<E>, dy: &Tensor<E>, m: usize, d: usize)
    requires
        old(db).holds_reals(),
        old(db).dims() == seq![d],
        dy.is_real(),
        dy.cells().len() == m * d,
    ensures
        old(db).same_form(final(db)),
        final(db).cells() == summed(old(db).cells(), rows_of(dy.cells(), d as int, m as int)),
{
    let ghost before = *db;
    proof {
        lemma_size1(db.dims());
        lemma_summed_none(db.cells());
        assert(rows_of(dy.cells(), d as int, 0) =~= Seq::empty());
    }
    let mut i: usize = 0;
    while i < m
        invariant
            i <= m,
            dy.is_real(),
            dy.cells().len() == m * d,
            before.same_form(db),
            before.is_real(),
            before.cells().len() == d,
            db.cells().len() == d,
            db.cells() == summed(before.cells(), rows_of(dy.cells(), d as int, i as int)),
        decreases m - i,
    {
        let _len = dy.real_len();
        proof {
            lemma_rows_apart(i as int, m as int, d as int);
        }
        let share = dy.segment(i * d, d);
        proof {
            let rows = rows_of(dy.cells(), d as int, i as int);
            lemma_summed_push(before.cells(), rows, share@);
            assert(rows.push(share@) =~= rows_of(dy.cells(), d as int, i + 1));
        }
        db.accumulate(0, &share);
        i += 1;
    }
}

/// Whether `y` is what the map gives for `x`.
pub open spec fn maps<E: Scalar>(
    x: Content<E>,
    w: Content<E>,
    bias: Option<Content<E>>,
    y: Content<E>,
) -> bool {
    &&& y.holds_reals() && y.dims == seq![x.dims[0], x.dims[1], w.dims[0]]
    &&& forall|i: int, j: int|
        0 <= i < x.dims[0] * x.dims[1] && 0 <= j < w.dims[0] ==> E::accumulates(
            start_of(bias, j),
            row(x.cells(), w.dims[1] as int, i),
            row(w.cells(), w.dims[1] as int, j),
            #[trigger] cell2(y.cells(), w.dims[0] as int, i, j),
        )
}

/// Whether `dx` is the gradient of the input.
pub open spec fn maps_back<E: Scalar>(
    x: Content<E>,
    w: Content<E>,
    dy: Content<E>,
    dx: Content<E>,
) -> bool {
    &&& dx.holds_reals() && dx.dims == x.dims
    &&& forall|i: int, j: int|
        0 <= i < x.dims[0] * x.dims[1] && 0 <= j < w.dims[1] ==> E::accumulates(
            None,
            row(dy.cells(), w.dims[0] as int, i),
            column(w.cells(), w.dims[1] as int, j, w.dims[0] as int),
            #[trigger] cell2(dx.cells(), w.dims[1] as int, i, j),
        )
}

/// Whether `dw` is the gradient of the weight.
pub open spec fn correlates<E: Scalar>(
    x: Content<E>,
    w: Content<E>,
    dy: Content<E>,
    dw: Content<E>,
) -> bool {
    let m = x.dims[0] * x.dims[1];
    &&& dw.holds_reals() && dw.dims == w.dims
    &&& forall|i: int, j: int|
        0 <= i < w.dims[0] && 0 <= j < w.dims[1] ==> E::accumulates(
            None,
            column(dy.cells(), w.dims[0] as int, i, m),
            column(x.cells(), w.dims[1] as int, j, m),
            #[trigger] cell2(dw.cells(), w.dims[1] as int, i, j),
        )
}

/// An affine map of rows.
pub struct Linear<E> {
    /// The weight, one row for each column of the output.
    pub w: Shared,
    /// The bias.
    pub b: Option<Shared>,
    /// The input, between going forward and backward.
    pub x: Option<Rc<Tensor<E>>>,
}

impl<E: Scalar> Linear<E> {
    /// Whether weight and bias are held, and belong together.
    pub open spec fn weights_fit(self, ctx: State<E>) -> bool {
        let w = ctx.tensors[self.w.id];
        &&& ctx.tensors.contains_key(self.w.id)
        &&& w.is_real() && w.dims.len() == 2
        &&& self.b matches Some(b) ==> {
            &&& ctx.tensors.contains_key(b.id)
            &&& ctx.tensors[b.id].is_real()
            &&& ctx.tensors[b.id].dims == seq![w.dims[0]]
        }
    }

    /// What the bias holds, where there is one.
    pub open spec fn bias(self, ctx: State<E>) -> Option<Content<E>> {
        match self.b {
            Some(b) => Some(ctx.tensors[b.id]),
            None => None,
        }
    }

    /// The context with the gradients of weight and bias registered.
    pub open spec fn registered(self, ctx: State<E>) -> State<E> {
        let weighted = ctx.with_gradient("w"@, self.w.id);
        match self.b {
            Some(b) => weighted.with_gradient("b"@, b.id),
            None => weighted,
        }
    }

    /// The context with this gradient of the weight, and with the rows of `dy`
    /// added to the gradient of the bias.
    pub open spec fn credited(
        self,
        dy: Content<E>,
        ctx: State<E>,
        weight_gradient: Content<E>,
    ) -> State<E> {
        let (w, x) = (ctx.tensors[self.w.id], (*self.x->0)@);
        let ready = self.registered(ctx);
        let weighted = ready.with_tensor(ready.gradient_cell(self.w.id), weight_gradient);
        match self.b {
            Some(b) => {
                let db = ready.gradient_cell(b.id);
                let rows = rows_of(dy.cells(), w.dims[0] as int, x.dims[0] * x.dims[1]);
                weighted.with_tensor(
                    db,
                    ready.tensors[db].with_cells(summed(ready.tensors[db].cells(), rows)),
                )
            },
            None => weighted,
        }
    }
}

impl<E: Scalar> NeuralNetwork<E> for Linear<E> {
    type Init = (Shared, Option<Shared>);

    open spec fn inits(
        init: (Shared, Option<Shared>),
        before: State<E>,
        network: Self,
        after: State<E>,
    ) -> bool {
        &&& after == before
        &&& network == (Linear::<E> { w: init.0, b: init.1, x: None })
    }

    open spec fn forward_accepts(self, inputs: Seq<Content<E>>, ctx: State<E>) -> bool {
        let x = inputs[0];
        let w = ctx.tensors[self.w.id];
        &&& inputs.len() == 1
        &&& x.holds_reals() && x.dims.len() == 3
        &&& self.weights_fit(ctx)
        &&& x.dims[2] == w.dims[1]
        &&& x.dims[0] * x.dims[1] <= usize::MAX
        &&& size(seq![x.dims[0], x.dims[1], w.dims[0]]) <= usize::MAX
    }

    open spec fn forwards(
        before: (Self, State<E>),
        inputs: Seq<Content<E>>,
        after: (Self, State<E>),
        outputs: Seq<Content<E>>,
    ) -> bool {
        let (layer, ctx) = before;
        &&& ctx.benched(after.1)
        &&& after.0.w == layer.w && after.0.b == layer.b
        &&& after.0.x is Some && (*after.0.x->0)@ == inputs[0]
        &&& outputs.len() == 1
        &&& maps(inputs[0], ctx.tensors[layer.w.id], layer.bias(ctx), outputs[0])
    }

    open spec fn backward_accepts(self, inputs: Seq<Content<E>>, ctx: State<E>) -> bool {
        let (dy, x) = (inputs[0], (*self.x->0)@);
        &&& inputs.len() == 1
        &&& self.x is Some
        &&& x.holds_reals() && dy.holds_reals()
        &&& self.weights_fit(ctx)
        &&& shapes_fit(dy.dims, x.dims, ctx.tensors[self.w.id].dims)
        &&& ctx.next + 2 <= u64::MAX
    }

    open spec fn backwards(
        before: (Self, State<E>),
        inputs: Seq<Content<E>>,
        after: (Self, State<E>),
        outputs: Seq<Content<E>>,
    ) -> bool {
        let (layer, ctx) = before;
        let (dy, x) = (inputs[0], (*layer.x->0)@);
        let w = ctx.tensors[layer.w.id];
        let ready = layer.registered(ctx);
        let dw = ready.gradient_cell(layer.w.id);
        &&& layer.credited(dy, ctx, after.1.tensors[dw]).benched(after.1)
        &&& correlates(x, w, dy, after.1.tensors[dw])
        &&& after.0 == (Linear::<E> { w: layer.w, b: layer.b, x: None })
        &&& outputs.len() == 1
        &&& maps_back(x, w, dy, outputs[0])
    }

    fn init(init: (Shared, Option<Shared>), ctx: &mut Context<E>) -> (network: Self) {
        Linear { w: init.0, b: init.1, x: None }
    }

    fn forward(&mut self, inputs: Vec<Rc<Tensor<E>>>, ctx: &mut Context<E>) -> (outputs: Vec<
        Rc<Tensor<E>>,
    >) {
        let x = only(inputs);
        let w = ctx.read(self.w);
        let shape = [x.dim(0), x.dim(1), w.dim(0)];
        assert(shape@ =~= seq![x.dims()[0], x.dims()[1], w.dims()[0]]);
        let mut y = ctx.tensor(x.digit(), &shape);
        let start = Instant::now();
        let bias = match self.b {
            Some(b) => Some(ctx.read(b)),
            None => None,
        };
        forward(&mut y, &x, w, bias);
        ctx.record(start);
        self.x = Some(x);
        alone(y)
    }

    fn backward(&mut self, inputs: Vec<Rc<Tensor<E>>>, ctx: &mut Context<E>) -> (outputs: Vec<
        Rc<Tensor<E>>,
    >) {
        let dy = only(inputs);
        let x = self.x.take().unwrap();
        let dw = ctx.write_gradient("w", self.w);
        let mut dx = x.zeroed_like();
        let db = match self.b {
            Some(b) => Some(ctx.write_gradient("b", b)),
            None => None,
        };
        let mut dw_tensor = ctx.take(dw);
        let db_tensor = match db {
            Some(db) => Some(ctx.take(db)),
            None => None,
        };
        let start = Instant::now();
        let db_tensor = backward(&mut dx, &mut dw_tensor, db_tensor, &dy, &x, ctx.read(self.w));
        ctx.put(dw, dw_tensor);
        if let (Some(db), Some(db_tensor)) = (db, db_tensor) {
            ctx.put(db, db_tensor);
        }
        assert(ctx@.tensors =~= old(self).credited(dy@, old(ctx)@, dw_tensor@).tensors);
        ctx.record(start);
        alone(dx)
    }
}

/// Having gone forward, the layer can go backward from any gradient of the form
/// of its output.
pub proof fn law_forward_then_backward<E: Scalar>(
    before: (Linear<E>, State<E>),
    input: Content<E>,
    after: (Linear<E>, State<E>),
    output: Content<E>,
    gradient: Content<E>,
)
    requires
        before.0.forward_accepts(seq![input], before.1),
        Linear::<E>::forwards(before, seq![input], after, seq![output]),
        gradient.wf(),
        gradient.same_form(output),
        before.1.next + 2 <= u64::MAX,
    ensures
        after.0.backward_accepts(seq![gradient], after.1),
{
    let took = choose|took: Duration| after.1 == #[trigger] before.1.timed(took);
}

/// Going backward gives one gradient, of the form of the input, and leaves the
/// layer as it was made: it has to go forward before it can go backward again.
pub proof fn law_backward_uses_up<E: Scalar>(
    before: (Linear<E>, State<E>),
    gradient: Content<E>,
    after: (Linear<E>, State<E>),
    outputs: Seq<Content<E>>,
)
    requires
        before.0.backward_accepts(seq![gradient], before.1),
        Linear::<E>::backwards(before, seq![gradient], after, outputs),
    ensures
        outputs.len() == 1,
        outputs[0].same_form((*before.0.x->0)@),
        Linear::<E>::inits((before.0.w, before.0.b), after.1, after.0, after.1),
        forall|inputs: Seq<Content<E>>, ctx: State<E>|
            !(#[trigger] after.0.backward_accepts(inputs, ctx)),
{
}

/// Forward and backward, twice: the gradient of the weight is that of the second
/// pass alone, while the gradient of the bias holds the rows of both, starting
/// from zero where there was none.  The weights are known by their names, and the
/// layer cannot go backward once more.
pub proof fn law_two_passes<E: Scalar>(
    start: (Linear<E>, State<E>),
    x1: Content<E>,
    f1: (Linear<E>, State<E>),
    y1: Content<E>,
    dy1: Content<E>,
    b1: (Linear<E>, State<E>),
    dx1: Content<E>,
    x2: Content<E>,
    f2: (Linear<E>, State<E>),
    y2: Content<E>,
    dy2: Content<E>,
    b2: (Linear<E>, State<E>),
    dx2: Content<E>,
)
    requires
        start.1.consistent(),
        start.0.forward_accepts(seq![x1], start.1),
        Linear::<E>::forwards(start, seq![x1], f1, seq![y1]),
        f1.0.backward_accepts(seq![dy1], f1.1),
        Linear::<E>::backwards(f1, seq![dy1], b1, seq![dx1]),
        b1.0.forward_accepts(seq![x2], b1.1),
        Linear::<E>::forwards(b1, seq![x2], f2, seq![y2]),
        f2.0.backward_accepts(seq![dy2], f2.1),
        Linear::<E>::backwards(f2, seq![dy2], b2, seq![dx2]),
    ensures
        ({
            let w = start.0.w.id;
            let ready = start.0.registered(start.1);
            let dw = ready.gradient_cell(w);
            let weight = b1.1.tensors[w];
            &&& correlates(x2, weight, dy2, b2.1.tensors[dw])
            &&& maps_back(x2, weight, dy2, dx2)
            &&& b2.1.info(w).names.contains(start.1.full_name("w"@))
            &&& start.0.b matches Some(b) ==> {
                let db = ready.gradient_cell(b.id);
                let k = start.1.tensors[w].dims[0] as int;
                &&& b2.1.tensors[db].cells() == summed(
                    ready.tensors[db].cells(),
                    rows_of(dy1.cells(), k, x1.dims[0] * x1.dims[1]) + rows_of(
                        dy2.cells(),
                        k,
                        x2.dims[0] * x2.dims[1],
                    ),
                )
                &&& start.1.info(b.id).gradient is None ==> ready.tensors[db].cells() == zeros::<E>(k)
                &&& b2.1.info(b.id).names.contains(start.1.full_name("b"@))
            }
        }),
        forall|inputs: Seq<Content<E>>, ctx: State<E>|
            !(#[trigger] b2.0.backward_accepts(inputs, ctx)),
{
    let w = start.0.w.id;
    let ready = start.0.registered(start.1);
    let dw = ready.gradient_cell(w);
    let t1 = choose|took: Duration| f1.1 == #[trigger] start.1.timed(took);
    let t2 = choose|took: Duration|
        b1.1 == #[trigger] f1.0.credited(dy1, f1.1, b1.1.tensors[dw]).timed(took);
    let t3 = choose|took: Duration| f2.1 == #[trigger] b1.1.timed(took);
    let t4 = choose|took: Duration|
        b2.1 == #[trigger] f2.0.credited(dy2, f2.1, b2.1.tensors[dw]).timed(took);
    let ready1 = f1.0.registered(f1.1);
    let ready2 = f2.0.registered(f2.1);
    assert(ready1.weights == ready.weights && ready1.tensors == ready.tensors);
    assert(seq![dx1][0] == dx1 && seq![dx2][0] == dx2);
    if let Some(b) = start.0.b {
        let db = ready.gradient_cell(b.id);
        assert(b.id != w);
        start.1.law_gradients_apart("w"@, w, "b"@, b.id);
        let (k, m1, m2) = (
            start.1.tensors[w].dims[0] as int,
            x1.dims[0] * x1.dims[1],
            x2.dims[0] * x2.dims[1],
        );
        lemma_size1(start.1.tensors[b.id].dims);
        let (rows1, rows2) = (rows_of(dy1.cells(), k, m1), rows_of(dy2.cells(), k, m2));
        lemma_size3(dy1.dims);
        lemma_size3(dy2.dims);
        assert(b1.1.tensors[w] == start.1.tensors[w]);
        assert forall|r: int| 0 <= r < rows1.len() implies (#[trigger] rows1[r]).len() == k by {
            lemma_rows_apart(r, m1, k);
        }
        assert forall|r: int| 0 <= r < rows2.len() implies (#[trigger] rows2[r]).len() == k by {
            lemma_rows_apart(r, m2, k);
        }
        law_summed_in_parts(ready.tensors[db].cells(), rows1, rows2);
        assert(ready2.gradient_cell(b.id) == db);
        assert(ready2.tensors[db] == b1.1.tensors[db]);
    }
    assert(ready2.gradient_cell(w) == dw);
}

} // verus!
