//! What holds of attention as a whole.
use crate::nn::attention::attends;
use crate::nn::attention::forward::{
    attention, heads_of, in_walk, key, mixed, query, scores, slice, value, Heads,
};
use crate::scalar::{cell2, Scalar};
use crate::tensor::{lemma_size3, lemma_size4, Content};
use crate::vector::{
    lemma_place_bound, lemma_rows_apart, row, zeros,
};
use vstd::prelude::*;

verus! {

/// Whether two inputs are the same at the positions up to `t` of sequence `b`.
pub open spec fn same_past<E>(x1: Seq<E>, x2: Seq<E>, g: Heads, b: int, t: int) -> bool {
    forall|s: int|
        0 <= s <= t ==> #[trigger] row(x1, g.d3 as int, b * g.n + s) == row(
            x2,
            g.d3 as int,
            b * g.n + s,
        )
}

/// The parts of equal rows are equal.
proof fn lemma_same_part<E>(
    x1: Seq<E>,
    x2: Seq<E>,
    g: Heads,
    batch: int,
    b: int,
    s: int,
    p: int,
    h: int,
)
    requires
        g.wf(),
        x1.len() == batch * g.n * g.d3,
        x2.len() == x1.len(),
        in_walk(g, batch, b, s, h),
        0 <= p < 3,
        row(x1, g.d3 as int, b * g.n + s) == row(x2, g.d3 as int, b * g.n + s),
    ensures
        slice(x1, g.part(b, s, p, h), g.dh as int) == slice(x2, g.part(b, s, p, h), g.dh as int),
{
    g.lemma_part(b, s, p, h, batch);
    lemma_place_bound(b, s, batch, g.n as int);
    lemma_rows_apart(b * g.n + s, batch * g.n, g.d3 as int);
    let (r1, r2) = (
        row(x1, g.d3 as int, b * g.n + s),
        row(x2, g.d3 as int, b * g.n + s),
    );
    let (at, dh) = (g.part(b, s, p, h), g.dh as int);
    let offset = p * g.d + h * g.dh;
    assert forall|j: int| 0 <= j < dh implies slice(x1, at, dh)[j] == slice(x2, at, dh)[j] by {
        assert(r1[offset + j] == r2[offset + j]);
    }
    assert(slice(x1, at, dh) =~= slice(x2, at, dh));
}

/// What a head does at a position depends on the positions up to it, of its own
/// sequence, and on nothing else.
pub proof fn law_heads_are_causal<E: Scalar>(
    x1: Seq<E>,
    x2: Seq<E>,
    g: Heads,
    batch: int,
    b: int,
    t: int,
    h: int,
)
    requires
        g.wf(),
        x1.len() == batch * g.n * g.d3,
        x2.len() == x1.len(),
        in_walk(g, batch, b, t, h),
        same_past(x1, x2, g, b, t),
    ensures
        scores(x1, g, b, h, t) == scores(x2, g, b, h, t),
        attention(x1, g, b, h, t) == attention(x2, g, b, h, t),
        mixed(x1, g, b, h, attention(x1, g, b, h, t)) == mixed(
            x2,
            g,
            b,
            h,
            attention(x2, g, b, h, t),
        ),
{
    assert forall|s: int| 0 <= s <= t implies #[trigger] key(x1, g, b, s, h) == key(
        x2,
        g,
        b,
        s,
        h,
    ) by {
        assert(row(x1, g.d3 as int, b * g.n + s) == row(x2, g.d3 as int, b * g.n + s));
        lemma_same_part(x1, x2, g, batch, b, s, 1, h);
    }
    assert forall|s: int| 0 <= s <= t implies #[trigger] value(x1, g, b, s, h) == value(
        x2,
        g,
        b,
        s,
        h,
    ) by {
        assert(row(x1, g.d3 as int, b * g.n + s) == row(x2, g.d3 as int, b * g.n + s));
        lemma_same_part(x1, x2, g, batch, b, s, 2, h);
    }
    assert(query(x1, g, b, t, h) == query(x2, g, b, t, h)) by {
        assert(row(x1, g.d3 as int, b * g.n + t) == row(x2, g.d3 as int, b * g.n + t));
        lemma_same_part(x1, x2, g, batch, b, t, 0, h);
    }
    assert(scores(x1, g, b, h, t) =~= scores(x2, g, b, h, t));
    let weights = attention(x1, g, b, h, t);
    assert forall|j: int| 0 <= j < g.dh implies #[trigger] mixed(x1, g, b, h, weights)[j] == mixed(
        x2,
        g,
        b,
        h,
        weights,
    )[j] by {
        assert(Seq::new(weights.len(), |s: int| weights[s].times_spec(value(x1, g, b, s, h)[j]))
            =~= Seq::new(
            weights.len(),
            |s: int| weights[s].times_spec(value(x2, g, b, s, h)[j]),
        ));
    }
    assert(mixed(x1, g, b, h, weights) =~= mixed(x2, g, b, h, weights));
}

/// Where the head of an output column stands.
proof fn lemma_column_of_head(g: Heads, c: int)
    requires
        g.wf(),
        0 <= c < g.nh * g.dh,
    ensures
        g.dh > 0,
        0 <= c / (g.dh as int) < g.nh,
        0 <= c % (g.dh as int) < g.dh,
        c == c / (g.dh as int) * g.dh + c % (g.dh as int),
{
    let (nh, dh) = (g.nh as int, g.dh as int);
    assert(dh > 0) by (nonlinear_arith)
        requires
            0 <= c < nh * dh,
            0 <= dh,
    ;
    assert(0 <= c / dh < nh && 0 <= c % dh < dh && c == c / dh * dh + c % dh) by (nonlinear_arith)
        requires
            0 <= c < nh * dh,
            0 < dh,
    ;
}

/// The output at a position depends on the input at the positions up to it, of
/// its own sequence, and on nothing else.
pub proof fn law_outputs_are_causal<E: Scalar>(
    x1: Content<E>,
    y1: Content<E>,
    att1: Content<E>,
    x2: Content<E>,
    y2: Content<E>,
    att2: Content<E>,
    b: int,
    t: int,
)
    requires
        x1.holds_reals(),
        x2.holds_reals(),
        x1.dims.len() == 3,
        x2.dims == x1.dims,
        att2.dims == att1.dims,
        att1.dims[1] > 0,
        attends(x1, y1, att1),
        attends(x2, y2, att2),
        0 <= b < x1.dims[0],
        0 <= t < x1.dims[1],
        same_past(x1.cells(), x2.cells(), heads_of(att1.dims, x1.dims), b, t),
    ensures
        ({
            let g = heads_of(att1.dims, x1.dims);
            row(y1.cells(), g.d as int, b * g.n + t) == row(y2.cells(), g.d as int, b * g.n + t)
        }),
{
    let g = heads_of(att1.dims, x1.dims);
    let (batch, n, d, dh) = (x1.dims[0] as int, g.n as int, g.d as int, g.dh as int);
    let r = b * n + t;
    lemma_size3(x1.dims);
    lemma_size3(y1.dims);
    lemma_place_bound(b, t, batch, n);
    lemma_rows_apart(r, batch * n, d);
    let (r1, r2) = (row(y1.cells(), d, r), row(y2.cells(), d, r));
    assert forall|c: int| 0 <= c < d implies r1[c] == r2[c] by {
        if c < g.nh * g.dh {
            lemma_column_of_head(g, c);
            let (h, j) = (c / dh, c % dh);
            law_heads_are_causal(x1.cells(), x2.cells(), g, batch, b, t, h);
            g.lemma_out(b, t, h, batch);
            let at = g.out(b, t, h);
            assert(slice(y1.cells(), at, dh)[j] == slice(y2.cells(), at, dh)[j]);
            assert(r1[c] == slice(y1.cells(), at, dh)[j]);
        } else {
            assert(cell2(y1.cells(), d, r, c) == E::zero_spec());
            assert(cell2(y2.cells(), d, r, c) == E::zero_spec());
        }
    }
    assert(r1 =~= r2);
}

/// A position gives no weight to those after it.
pub proof fn law_no_weight_ahead<E: Scalar>(
    x: Content<E>,
    y: Content<E>,
    att: Content<E>,
    b: int,
    h: int,
    t: int,
    s: int,
)
    requires
        x.dims.len() == 3,
        attends(x, y, att),
        att.dims[1] > 0,
        in_walk(heads_of(att.dims, x.dims), x.dims[0] as int, b, t, h),
        t < s < x.dims[1],
    ensures
        att.cells()[heads_of(att.dims, x.dims).weights(b, h, t) + s] == E::zero_spec(),
{
    let g = heads_of(att.dims, x.dims);
    let n = g.n as int;
    lemma_size4(att.dims);
    g.lemma_weights(b, h, t, x.dims[0] as int);
    let weights = attention(x.cells(), g, b, h, t);
    assert(slice(att.cells(), g.weights(b, h, t), n)[s] == (weights + zeros::<E>(n - t - 1))[s]);
}

} // verus!
