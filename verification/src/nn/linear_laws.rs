//! What the affine map comes to over the reals.
use crate::context::Shared;
use crate::exact::{
    exact, lemma_exact_sum, lemma_exact_terms, lemma_total_is_sum, start_value, sum_of, total,
    values,
};
use crate::nn::linear::{column, correlates, maps, maps_back, start_of, Linear};
use crate::nn::NeuralNetwork;
use crate::scalar::{cell2, Scalar};
use crate::state::State;
use crate::tensor::{lemma_size1, lemma_size2, lemma_size3, Content};
use crate::vector::{lemma_rows_apart, products, row, rows_of, summed};
use std::time::Duration;
use vstd::prelude::*;

verus! {

/// Whether an input of this shape can be mapped by a weight of this shape.
pub open spec fn operands_fit<E: Scalar>(x: Content<E>, w: Content<E>) -> bool {
    &&& x.holds_reals() && x.dims.len() == 3
    &&& w.holds_reals() && w.dims.len() == 2
    &&& x.dims[2] == w.dims[1]
}

/// Every output is the sum of the products of a row of the input with a row of
/// the weight, and of the bias where there is one.
pub proof fn law_output_values<E: Scalar>(
    val: spec_fn(E) -> real,
    x: Content<E>,
    w: Content<E>,
    bias: Option<Content<E>>,
    y: Content<E>,
    i: int,
    j: int,
)
    requires
        exact(val),
        operands_fit(x, w),
        maps(x, w, bias, y),
        0 <= i < x.dims[0] * x.dims[1],
        0 <= j < w.dims[0],
    ensures
        val(cell2(y.cells(), w.dims[0] as int, i, j)) == start_value(val, start_of(bias, j)) + total(
            values(
                val,
                products(
                    row(x.cells(), w.dims[1] as int, i),
                    row(w.cells(), w.dims[1] as int, j),
                ),
            ),
        ),
{
    let k = w.dims[1] as int;
    lemma_size3(x.dims);
    lemma_size2(w.dims);
    lemma_rows_apart(i, x.dims[0] * x.dims[1], k);
    lemma_rows_apart(j, w.dims[0] as int, k);
}

/// Every gradient of the input is the sum of the products of a row of the gradient
/// of the output with a column of the weight.
pub proof fn law_input_gradient_values<E: Scalar>(
    val: spec_fn(E) -> real,
    x: Content<E>,
    w: Content<E>,
    dy: Content<E>,
    dx: Content<E>,
    i: int,
    j: int,
)
    requires
        exact(val),
        operands_fit(x, w),
        dy.holds_reals(),
        dy.dims == seq![x.dims[0], x.dims[1], w.dims[0]],
        maps_back(x, w, dy, dx),
        0 <= i < x.dims[0] * x.dims[1],
        0 <= j < w.dims[1],
    ensures
        val(cell2(dx.cells(), w.dims[1] as int, i, j)) == total(
            values(
                val,
                products(
                    row(dy.cells(), w.dims[0] as int, i),
                    column(w.cells(), w.dims[1] as int, j, w.dims[0] as int),
                ),
            ),
        ),
{
    lemma_size3(dy.dims);
    lemma_rows_apart(i, x.dims[0] * x.dims[1], w.dims[0] as int);
}

/// Every gradient of the weight is the sum of the products of a column of the
/// gradient of the output with a column of the input.
pub proof fn law_weight_gradient_values<E: Scalar>(
    val: spec_fn(E) -> real,
    x: Content<E>,
    w: Content<E>,
    dy: Content<E>,
    dw: Content<E>,
    i: int,
    j: int,
)
    requires
        exact(val),
        operands_fit(x, w),
        correlates(x, w, dy, dw),
        0 <= i < w.dims[0],
        0 <= j < w.dims[1],
    ensures
        val(cell2(dw.cells(), w.dims[1] as int, i, j)) == total(
            values(
                val,
                products(
                    column(dy.cells(), w.dims[0] as int, i, x.dims[0] * x.dims[1]),
                    column(x.cells(), w.dims[1] as int, j, x.dims[0] * x.dims[1]),
                ),
            ),
        ),
{
}

/// Rows that are added up add up column by column.
pub proof fn law_summed_values<E: Scalar>(
    val: spec_fn(E) -> real,
    start: Seq<E>,
    rows: Seq<Seq<E>>,
    j: int,
)
    requires
        exact(val),
        0 <= j < start.len(),
    ensures
        val(summed(start, rows)[j]) == val(start[j]) + total(
            Seq::new(rows.len(), |r: int| val(rows[r][j])),
        ),
{
    let terms = Seq::new(rows.len(), |r: int| rows[r][j]);
    lemma_exact_sum(val, start[j], terms);
    assert(values(val, terms) =~= Seq::new(rows.len(), |r: int| val(rows[r][j])));
}

/// What the layer gives for input row `i`, forward and backward, in terms of input,
/// weight, bias and gradient of the output alone: `j` is a column of the output and
/// `p` one of the input.  The gradient of the weight is that of this pass, and that
/// of the bias adds to what was there.
pub proof fn law_pass_values<E: Scalar>(
    val: spec_fn(E) -> real,
    start: (Linear<E>, State<E>),
    x: Content<E>,
    between: (Linear<E>, State<E>),
    y: Content<E>,
    dy: Content<E>,
    end: (Linear<E>, State<E>),
    dx: Content<E>,
    i: int,
    j: int,
    p: int,
)
    requires
        exact(val),
        start.1.consistent(),
        start.0.forward_accepts(seq![x], start.1),
        Linear::<E>::forwards(start, seq![x], between, seq![y]),
        between.0.backward_accepts(seq![dy], between.1),
        Linear::<E>::backwards(between, seq![dy], end, seq![dx]),
        0 <= j < y.dims[2],
        0 <= p < x.dims[2],
    ensures
        ({
            let (k, n) = (x.dims[2] as int, y.dims[2] as int);
            let w = start.1.tensors[start.0.w.id].cells();
            let bias = match start.0.b {
                Some(b) => val(start.1.tensors[b.id].cells()[j]),
                None => 0 as real,
            };
            &&& y.dims == seq![x.dims[0], x.dims[1], start.1.tensors[start.0.w.id].dims[0]]
            &&& dx.dims == x.dims
            &&& 0 <= i < x.dims[0] * x.dims[1] ==> val(y.cells()[i * n + j]) == bias + sum_of(
                k,
                |q: int| val(x.cells()[i * k + q]) * val(w[j * k + q]),
            )
            &&& 0 <= i < x.dims[0] * x.dims[1] ==> val(dx.cells()[i * k + p]) == sum_of(
                n,
                |q: int| val(dy.cells()[i * n + q]) * val(w[q * k + p]),
            )
        }),
        ({
            let (k, n) = (x.dims[2] as int, y.dims[2] as int);
            let m = x.dims[0] * x.dims[1];
            let w = start.0.w.id;
            let dw = end.1.weights[w].gradient;
            &&& end.1.weights.contains_key(w) && dw is Some
            &&& end.1.weights[w].names.contains(start.1.path + seq![':'] + "w"@)
            &&& val(end.1.tensors[dw->0].cells()[j * k + p]) == sum_of(
                m,
                |q: int| val(dy.cells()[q * n + j]) * val(x.cells()[q * k + p]),
            )
            &&& start.0.b matches Some(b) ==> {
                let db = end.1.weights[b.id].gradient;
                &&& end.1.weights.contains_key(b.id) && db is Some && db != dw
                &&& end.1.weights[b.id].names.contains(start.1.path + seq![':'] + "b"@)
                &&& val(end.1.tensors[db->0].cells()[j]) == start.1.gradient_value(val, b.id, j)
                    + sum_of(m, |q: int| val(dy.cells()[q * n + j]))
            }
            &&& forall|v: u64|
                v != w && start.0.b != Some(Shared { id: v }) ==> (end.1.weights.contains_key(v)
                    <==> #[trigger] start.1.weights.contains_key(v)) && (
                start.1.weights.contains_key(v) ==> end.1.weights[v] == start.1.weights[v])
            &&& forall|c: u64| #[trigger]
                start.1.tensors.contains_key(c) && dw != Some(c) && (start.0.b is None
                    || end.1.weights[(start.0.b->0).id].gradient != Some(c)) ==> end.1.tensors[c]
                    == start.1.tensors[c]
        }),
{
    let m = x.dims[0] * x.dims[1];
    let w = start.0.w.id;
    let weight = start.1.tensors[w];
    let t1 = choose|took: Duration| between.1 == #[trigger] start.1.timed(took);
    let ready = between.0.registered(between.1);
    let dw = ready.gradient_cell(w);
    assert(seq![x][0] == x && seq![y][0] == y && seq![dy][0] == dy && seq![dx][0] == dx);
    let t2 = choose|took: Duration|
        end.1 == #[trigger] between.0.credited(dy, between.1, end.1.tensors[dw]).timed(took);
    assert(start.1.path.push(':') =~= start.1.path + seq![':']);
    let ws = weight.cells();
    let (k, n) = (x.dims[2] as int, y.dims[2] as int);
    assert(dy.dims =~= seq![x.dims[0], x.dims[1], weight.dims[0]]);
    lemma_size3(x.dims);
    lemma_size3(dy.dims);
    lemma_size2(weight.dims);
    let bias = start.0.bias(start.1);
    if 0 <= i < m {
        lemma_rows_apart(i, m, k);
        lemma_rows_apart(i, m, n);
        lemma_rows_apart(j, n, k);
        law_output_values(val, x, weight, bias, y, i, j);
        law_input_gradient_values(val, x, weight, dy, dx, i, p);
        let (xi, wj, di) = (row(x.cells(), k, i), row(ws, k, j), row(dy.cells(), n, i));
        lemma_total_is_sum(
            values(val, products(xi, wj)),
            |q: int| val(x.cells()[i * k + q]) * val(ws[j * k + q]),
        );
        lemma_total_is_sum(
            values(val, products(di, column(ws, k, p, n))),
            |q: int| val(dy.cells()[i * n + q]) * val(ws[q * k + p]),
        );
    }
    law_weight_gradient_values(val, x, weight, dy, end.1.tensors[dw], j, p);
    lemma_total_is_sum(
        values(val, products(column(dy.cells(), n, j, m), column(x.cells(), k, p, m))),
        |q: int| val(dy.cells()[q * n + j]) * val(x.cells()[q * k + p]),
    );
    if let Some(b) = start.0.b {
        assert(b.id != w);
        start.1.law_gradients_apart("w"@, w, "b"@, b.id);
        let db = ready.gradient_cell(b.id);
        lemma_size1(start.1.tensors[b.id].dims);
        let rows = rows_of(dy.cells(), n, m);
        let g = |q: int| val(dy.cells()[q * n + j]);
        let terms = Seq::new(rows.len(), |q: int| rows[q][j]);
        assert forall|q: int| 0 <= q < terms.len() implies val(#[trigger] terms[q]) == g(q) by {
            lemma_rows_apart(q, m, n);
        }
        lemma_exact_terms(val, ready.tensors[db].cells()[j], terms, g);
    }
}

} // verus!
