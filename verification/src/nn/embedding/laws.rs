//! What holds of the embedding, cell by cell.
use crate::context::Shared;
use crate::exact::{exact, law_sum_grows, lemma_sum_same, sum_of};
use crate::nn::embedding::backward;
use crate::nn::embedding::backward::scattered;
use crate::nn::embedding::forward;
use crate::nn::embedding::{positions, Embedding};
use crate::nn::NeuralNetwork;
use crate::scalar::Scalar;
use crate::state::State;
use crate::tensor::{lemma_size2, lemma_size3, Content};
use crate::vector::{lemma_rows_apart, row};
use std::time::Duration;
use vstd::prelude::*;

verus! {

/// Cell `i` of output row `r`, after the first `m` rows.
proof fn lemma_filled_cell<E: Scalar>(
    scheme: forward::Scheme,
    y: Seq<E>,
    i1: Seq<u16>,
    i2: Seq<u16>,
    table1: Seq<E>,
    table2: Seq<E>,
    m: int,
    r: int,
    i: int,
)
    requires
        0 <= m <= scheme.n,
        0 <= r < scheme.n,
        0 <= i < scheme.d <= scheme.nsy,
        (scheme.n - 1) * scheme.nsy + scheme.d <= y.len(),
        forall|r: int| 0 <= r < scheme.n ==> #[trigger] i1[r] * scheme.d + scheme.d <= table1.len(),
        forall|r: int| 0 <= r < scheme.n ==> #[trigger] i2[r] * scheme.d + scheme.d <= table2.len(),
    ensures
        scheme.filled(y, i1, i2, table1, table2, m).len() == y.len(),
        scheme.filled(y, i1, i2, table1, table2, m)[r * scheme.nsy + i] == if r < m {
            table1[i1[r] * scheme.d + i].plus_spec(table2[i2[r] * scheme.d + i])
        } else {
            y[r * scheme.nsy + i]
        },
    decreases m,
{
    let (nsy, d) = (scheme.nsy as int, scheme.d as int);
    assert(0 <= r * nsy <= (scheme.n - 1) * nsy) by (nonlinear_arith)
        requires
            0 <= r <= scheme.n - 1,
            0 <= nsy,
    ;
    if m > 0 {
        lemma_filled_cell(scheme, y, i1, i2, table1, table2, m - 1, r, i);
        let q = m - 1;
        let (k1, k2) = (i1[q] as int, i2[q] as int);
        assert(i1[q] * scheme.d + scheme.d <= table1.len());
        assert(i2[q] * scheme.d + scheme.d <= table2.len());
        assert(0 <= k1 * d && 0 <= k2 * d && 0 <= q * nsy) by (nonlinear_arith)
            requires
                0 <= k1,
                0 <= k2,
                0 <= d,
                0 <= q,
                0 <= nsy,
        ;
        if q < r {
            lemma_rows_apart(q, r, nsy);
        } else if r < q {
            lemma_rows_apart(r, q, nsy);
        }
        assert(row(table1, d, k1).len() == d);
        assert(row(table1, d, k1)[i] == table1[k1 * d + i]);
        assert(row(table2, d, k2)[i] == table2[k2 * d + i]);
    }
}

/// Filling sets every cell of every row to the sum of the cells in the same column
/// of the two table rows that the indices name.
pub proof fn law_filled_cell<E: Scalar>(
    scheme: forward::Scheme,
    y: Seq<E>,
    i1: Seq<u16>,
    i2: Seq<u16>,
    table1: Seq<E>,
    table2: Seq<E>,
    r: int,
    i: int,
)
    requires
        0 <= r < scheme.n,
        0 <= i < scheme.d <= scheme.nsy,
        (scheme.n - 1) * scheme.nsy + scheme.d <= y.len(),
        forall|r: int| 0 <= r < scheme.n ==> #[trigger] i1[r] * scheme.d + scheme.d <= table1.len(),
        forall|r: int| 0 <= r < scheme.n ==> #[trigger] i2[r] * scheme.d + scheme.d <= table2.len(),
    ensures
        scheme.filled(y, i1, i2, table1, table2, scheme.n as int)[r * scheme.nsy + i]
            == table1[i1[r] * scheme.d + i].plus_spec(table2[i2[r] * scheme.d + i]),
{
    lemma_filled_cell(scheme, y, i1, i2, table1, table2, scheme.n as int, r, i);
}

/// Where rows overlap, a cell holds what the last row that covers it was given.
pub proof fn law_filled_by_last_row<E: Scalar>(
    scheme: forward::Scheme,
    y: Seq<E>,
    i1: Seq<u16>,
    i2: Seq<u16>,
    table1: Seq<E>,
    table2: Seq<E>,
    m: int,
    r: int,
    i: int,
)
    requires
        0 <= r < m <= scheme.n,
        0 <= i < scheme.d,
        r * scheme.nsy + i < y.len(),
        forall|r: int| 0 <= r < scheme.n ==> #[trigger] i1[r] * scheme.d + scheme.d <= table1.len(),
        forall|r: int| 0 <= r < scheme.n ==> #[trigger] i2[r] * scheme.d + scheme.d <= table2.len(),
        forall|q: int|
            r < q < m ==> r * scheme.nsy + i < #[trigger] (q * scheme.nsy) || q * scheme.nsy
                + scheme.d <= r * scheme.nsy + i,
    ensures
        scheme.filled(y, i1, i2, table1, table2, m).len() == y.len(),
        scheme.filled(y, i1, i2, table1, table2, m)[r * scheme.nsy + i]
            == table1[i1[r] * scheme.d + i].plus_spec(table2[i2[r] * scheme.d + i]),
    decreases m,
{
    let (nsy, d, q) = (scheme.nsy as int, scheme.d as int, m - 1);
    let (k1, k2) = (i1[q] as int, i2[q] as int);
    assert(i1[q] * scheme.d + scheme.d <= table1.len());
    assert(i2[q] * scheme.d + scheme.d <= table2.len());
    assert(0 <= k1 * d && 0 <= k2 * d && 0 <= r * nsy) by (nonlinear_arith)
        requires
            0 <= k1,
            0 <= k2,
            0 <= d,
            0 <= r,
            0 <= nsy,
    ;
    assert(row(table1, d, k1).len() == d);
    if r < q {
        law_filled_by_last_row(scheme, y, i1, i2, table1, table2, q, r, i);
        assert(r * nsy + i < q * scheme.nsy || q * scheme.nsy + scheme.d <= r * nsy + i);
    } else {
        lemma_filled_length(scheme, y, i1, i2, table1, table2, q);
        assert(row(table1, d, k1)[i] == table1[k1 * d + i]);
        assert(row(table2, d, k2)[i] == table2[k2 * d + i]);
    }
}

/// Filling keeps the length.
proof fn lemma_filled_length<E: Scalar>(
    scheme: forward::Scheme,
    y: Seq<E>,
    i1: Seq<u16>,
    i2: Seq<u16>,
    table1: Seq<E>,
    table2: Seq<E>,
    m: int,
)
    ensures
        scheme.filled(y, i1, i2, table1, table2, m).len() == y.len(),
    decreases m,
{
    if m > 0 {
        lemma_filled_length(scheme, y, i1, i2, table1, table2, m - 1);
    }
}

/// Filling leaves a cell alone that stands in no row.
pub proof fn law_filled_elsewhere<E: Scalar>(
    scheme: forward::Scheme,
    y: Seq<E>,
    i1: Seq<u16>,
    i2: Seq<u16>,
    table1: Seq<E>,
    table2: Seq<E>,
    m: int,
    c: int,
)
    requires
        0 <= m <= scheme.n,
        0 <= c < y.len(),
        forall|r: int| 0 <= r < scheme.n ==> #[trigger] i1[r] * scheme.d + scheme.d <= table1.len(),
        forall|r: int|
            0 <= r < scheme.n ==> c < #[trigger] (r * scheme.nsy) || r * scheme.nsy + scheme.d <= c,
    ensures
        scheme.filled(y, i1, i2, table1, table2, m).len() == y.len(),
        scheme.filled(y, i1, i2, table1, table2, m)[c] == y[c],
    decreases m,
{
    if m > 0 {
        law_filled_elsewhere(scheme, y, i1, i2, table1, table2, m - 1, c);
        let (q, d) = (m - 1, scheme.d as int);
        let k1 = i1[q] as int;
        assert(i1[q] * scheme.d + scheme.d <= table1.len());
        assert(0 <= k1 * d) by (nonlinear_arith)
            requires
                0 <= k1,
                0 <= d,
        ;
        assert(row(table1, d, k1).len() == d);
        assert(c < q * scheme.nsy || q * scheme.nsy + scheme.d <= c);
    }
}

/// Every cell of an output is the sum of the cell of the token and the cell of the
/// position in the same column.
pub proof fn law_embedded_cell<E: Scalar>(
    layer: Embedding<E>,
    tokens: Content<E>,
    at: Content<E>,
    ctx: State<E>,
    y: Content<E>,
    r: int,
    i: int,
)
    requires
        ctx.consistent(),
        layer.looks_up(tokens, at, ctx),
        layer.embeds(tokens, at, ctx, y),
        0 <= r < tokens.tokens().len(),
        0 <= i < ctx.tensors[layer.te.id].dims[1],
    ensures
        ({
            let (te, pe) = (ctx.tensors[layer.te.id], ctx.tensors[layer.pe.id]);
            let d = te.dims[1];
            y.cells()[r * d + i] == te.cells()[tokens.tokens()[r] * d + i].plus_spec(
                pe.cells()[at.tokens()[r] * d + i],
            )
        }),
{
    let (te, pe) = (ctx.tensors[layer.te.id], ctx.tensors[layer.pe.id]);
    let d = te.dims[1] as int;
    let (a, b) = (tokens.tokens()[r] as int, at.tokens()[r] as int);
    lemma_size2(te.dims);
    lemma_size2(pe.dims);
    lemma_size2(tokens.dims);
    lemma_size3(y.dims);
    lemma_rows_apart(r, tokens.tokens().len() as int, d);
    lemma_rows_apart(a, te.dims[0] as int, d);
    lemma_rows_apart(b, pe.dims[0] as int, d);
    assert(row(y.cells(), d, r)[i] == y.cells()[r * d + i]);
    assert(row(te.cells(), d, a)[i] == te.cells()[a * d + i]);
    assert(row(pe.cells(), d, b)[i] == pe.cells()[b * d + i]);
}

/// What the first `m` rows add to cell `i` of table row `k`: of each row that names
/// `k`, the cell in the same column.
pub proof fn law_scattered_cell<E: Scalar>(
    val: spec_fn(E) -> real,
    scheme: backward::Scheme,
    table: Seq<E>,
    index: Seq<u16>,
    dy: Seq<E>,
    rows: int,
    m: int,
    k: int,
    i: int,
)
    requires
        exact(val),
        0 <= m <= scheme.n,
        0 <= k < rows,
        0 <= i < scheme.d,
        table.len() == rows * scheme.d,
        index.len() == scheme.n,
        forall|r: int| 0 <= r < index.len() ==> #[trigger] index[r] < rows,
        scheme.n > 0 ==> (scheme.n - 1) * scheme.nsy + scheme.d <= dy.len(),
    ensures
        scheme.scattered(table, index, dy, m).len() == table.len(),
        val(scheme.scattered(table, index, dy, m)[k * scheme.d + i]) == val(table[k * scheme.d + i])
            + sum_of(
            m,
            |r: int|
                if index[r] == k {
                    val(dy[r * scheme.nsy + i])
                } else {
                    0 as real
                },
        ),
    decreases m,
{
    let (nsy, d) = (scheme.nsy as int, scheme.d as int);
    let f = |r: int|
        if index[r] == k {
            val(dy[r * scheme.nsy + i])
        } else {
            0 as real
        };
    lemma_rows_apart(k, rows, d);
    if m > 0 {
        let q = m - 1;
        law_scattered_cell(val, scheme, table, index, dy, rows, q, k, i);
        law_sum_grows(q, f);
        let j = index[q] as int;
        assert(index[q] < rows);
        assert(0 <= q * nsy <= (scheme.n - 1) * nsy) by (nonlinear_arith)
            requires
                0 <= q <= scheme.n - 1,
                0 <= nsy,
        ;
        lemma_rows_apart(j, rows, d);
        if j < k {
            lemma_rows_apart(j, k, d);
        } else if k < j {
            lemma_rows_apart(k, j, d);
        }
        let share = dy.subrange(q * nsy, q * nsy + d);
        assert(share[i] == dy[q * nsy + i]);
    } else {
        law_sum_grows(0, f);
    }
}

/// Going backward adds to the gradient of both tables: to every cell the cells in
/// the same column of those rows of `dy` that name its row.  A gradient that was
/// not there starts at zero, and no other tensor changes.
pub proof fn law_credited_cell<E: Scalar>(
    val: spec_fn(E) -> real,
    layer: Embedding<E>,
    tokens: Content<E>,
    at: Content<E>,
    dy: Content<E>,
    before: State<E>,
    k: int,
    l: int,
    i: int,
)
    requires
        exact(val),
        before.consistent(),
        before.next + 2 <= u64::MAX,
        layer.looks_up(tokens, at, before),
        layer.te != layer.pe,
        dy.holds_reals(),
        dy.dims.len() == 3,
        dy.dims[0] * dy.dims[1] == tokens.tokens().len(),
        dy.dims[2] == before.tensors[layer.te.id].dims[1],
        tokens.tokens().len() <= usize::MAX,
        0 <= k < before.tensors[layer.te.id].dims[0],
        0 <= l < before.tensors[layer.pe.id].dims[0],
        0 <= i < dy.dims[2],
    ensures
        ({
            let after = layer.credited(tokens, at, dy, before);
            let d = dy.dims[2];
            let n = tokens.tokens().len() as int;
            let (te, pe) = (layer.te.id, layer.pe.id);
            let (dte, dpe) = (after.weights[te].gradient, after.weights[pe].gradient);
            &&& after.weights.contains_key(te) && after.weights.contains_key(pe)
            &&& dte is Some && dpe is Some && dte != dpe
            &&& after.weights[te].names.contains(before.path + seq![':'] + "wte"@)
            &&& after.weights[pe].names.contains(before.path + seq![':'] + "wpe"@)
            &&& forall|v: u64|
                v != te && v != pe ==> (after.weights.contains_key(v)
                    <==> #[trigger] before.weights.contains_key(v)) && (
                before.weights.contains_key(v) ==> after.weights[v] == before.weights[v])
            &&& val(after.tensors[dte->0].cells()[k * d + i]) == before.gradient_value(
                val,
                layer.te.id,
                k * d + i,
            ) + sum_of(
                n,
                |r: int|
                    if tokens.tokens()[r] == k {
                        val(dy.cells()[r * d + i])
                    } else {
                        0 as real
                    },
            )
            &&& val(after.tensors[dpe->0].cells()[l * d + i]) == before.gradient_value(
                val,
                layer.pe.id,
                l * d + i,
            ) + sum_of(
                n,
                |r: int|
                    if at.tokens()[r] == l {
                        val(dy.cells()[r * d + i])
                    } else {
                        0 as real
                    },
            )
            &&& forall|c: u64| #[trigger]
                before.tensors.contains_key(c) && dte != Some(c) && dpe != Some(c)
                    ==> after.tensors[c] == before.tensors[c]
        }),
{
    let after = layer.credited(tokens, at, dy, before);
    let (te, pe) = (layer.te.id, layer.pe.id);
    before.law_gradients_apart("wte"@, te, "wpe"@, pe);
    let ready = layer.registered(before);
    let (dte, dpe) = (ready.gradient_cell(te), ready.gradient_cell(pe));
    let d = dy.dims[2];
    let n = tokens.tokens().len() as int;
    lemma_size2(before.tensors[te].dims);
    lemma_size2(before.tensors[pe].dims);
    lemma_size3(dy.dims);
    if n > 0 {
        lemma_rows_apart(n - 1, n, d as int);
    }
    let scheme = backward::Scheme { n: n as usize, d, nsy: d };
    lemma_rows_apart(k, before.tensors[te].dims[0] as int, d as int);
    lemma_rows_apart(l, before.tensors[pe].dims[0] as int, d as int);
    let (one, two) = (ready.tensors[dte], ready.tensors[dpe]);
    assert(one.same_form(before.tensors[te]) && one.wf());
    assert(two.same_form(before.tensors[pe]) && two.wf());
    law_scattered_cell(
        val,
        scheme,
        one.cells(),
        tokens.tokens(),
        dy.cells(),
        before.tensors[te].dims[0] as int,
        n,
        k,
        i,
    );
    law_scattered_cell(
        val,
        scheme,
        two.cells(),
        at.tokens(),
        dy.cells(),
        before.tensors[pe].dims[0] as int,
        n,
        l,
        i,
    );
    let f = |r: int|
        if tokens.tokens()[r] == k {
            val(dy.cells()[r * d + i])
        } else {
            0 as real
        };
    let g = |r: int|
        if at.tokens()[r] == l {
            val(dy.cells()[r * d + i])
        } else {
            0 as real
        };
    lemma_sum_same(
        n,
        f,
        |r: int|
            if tokens.tokens()[r] == k {
                val(dy.cells()[r * scheme.nsy + i])
            } else {
                0 as real
            },
    );
    lemma_sum_same(
        n,
        g,
        |r: int|
            if at.tokens()[r] == l {
                val(dy.cells()[r * scheme.nsy + i])
            } else {
                0 as real
            },
    );
    assert(after.weights[te].gradient == Some(dte) && after.weights[pe].gradient == Some(dpe));
    assert(before.path.push(':') =~= before.path + seq![':']);
}

/// Where the positions of sequence `s` start.
pub open spec fn start_of_sequence(nseqs: Seq<usize>, s: int) -> int
    decreases s,
{
    if s <= 0 {
        0
    } else {
        start_of_sequence(nseqs, s - 1) + nseqs[s - 1]
    }
}

/// Every sequence counts its positions from zero, cut to sixteen bits, behind those
/// of the sequences before it.
pub proof fn law_positions_count(nseqs: Seq<usize>, s: int, i: int)
    requires
        0 <= s < nseqs.len(),
        0 <= i < nseqs[s],
    ensures
        positions(nseqs).len() == start_of_sequence(nseqs, nseqs.len() as int),
        0 <= start_of_sequence(nseqs, s),
        start_of_sequence(nseqs, s) + i < positions(nseqs).len(),
        positions(nseqs)[start_of_sequence(nseqs, s) + i] == (i % 0x1_0000) as u16,
    decreases nseqs.len(),
{
    let fewer = nseqs.drop_last();
    lemma_positions_length(nseqs);
    lemma_positions_length(fewer);
    lemma_same_starts(nseqs, fewer, s);
    lemma_same_starts(nseqs, fewer, fewer.len() as int);
    if s < fewer.len() {
        law_positions_count(fewer, s, i);
    }
    lemma_starts_positive(nseqs, s);
}

/// All sequences together have as many positions as their lengths say.
proof fn lemma_positions_length(nseqs: Seq<usize>)
    ensures
        positions(nseqs).len() == start_of_sequence(nseqs, nseqs.len() as int),
    decreases nseqs.len(),
{
    if nseqs.len() > 0 {
        let fewer = nseqs.drop_last();
        lemma_positions_length(fewer);
        lemma_same_starts(nseqs, fewer, fewer.len() as int);
    }
}

/// Where a sequence starts depends on those before it.
proof fn lemma_same_starts(nseqs: Seq<usize>, fewer: Seq<usize>, s: int)
    requires
        s <= fewer.len() <= nseqs.len(),
        forall|t: int| 0 <= t < fewer.len() ==> #[trigger] fewer[t] == nseqs[t],
    ensures
        start_of_sequence(nseqs, s) == start_of_sequence(fewer, s),
    decreases s,
{
    if s > 0 {
        lemma_same_starts(nseqs, fewer, s - 1);
    }
}

/// No sequence starts before the first cell.
proof fn lemma_starts_positive(nseqs: Seq<usize>, s: int)
    ensures
        0 <= start_of_sequence(nseqs, s),
    decreases s,
{
    if s > 0 {
        lemma_starts_positive(nseqs, s - 1);
    }
}

/// A layer that is made of two tables looks tokens up in the first and positions in
/// the second, and keeps no tokens.
pub proof fn law_made_of_tables<E: Scalar>(
    te: Shared,
    pe: Shared,
    before: State<E>,
    layer: Embedding<E>,
    after: State<E>,
)
    requires
        Embedding::<E>::inits([te, pe], before, layer, after),
    ensures
        layer.te == te,
        layer.pe == pe,
        layer.tokens is None,
        after == before,
{
}

/// On a batch without sequences, the output has no cells, and going backward makes
/// both tables known by their names.  The layer is then as it was made.
pub proof fn law_empty_batch<E: Scalar>(
    before: (Embedding<E>, State<E>),
    tokens: Content<E>,
    between: (Embedding<E>, State<E>),
    outputs: Seq<Content<E>>,
    dy: Content<E>,
    after: (Embedding<E>, State<E>),
    gradients: Seq<Content<E>>,
)
    requires
        before.1.consistent(),
        before.0.forward_accepts(seq![tokens], before.1),
        Embedding::<E>::forwards(before, seq![tokens], between, outputs),
        between.0.backward_accepts(seq![dy], between.1),
        Embedding::<E>::backwards(between, seq![dy], after, gradients),
    ensures
        outputs.len() == 1,
        outputs[0].is_real(),
        outputs[0].dims == seq![0, tokens.dims[1], before.1.tensors[before.0.te.id].dims[1]],
        outputs[0].cells().len() == 0,
        gradients.len() == 0,
        ({
            let (te, pe) = (before.0.te.id, before.0.pe.id);
            let (dte, dpe) = (after.1.weights[te].gradient, after.1.weights[pe].gradient);
            &&& after.1.weights.contains_key(te) && after.1.weights.contains_key(pe)
            &&& dte is Some && dpe is Some && dte != dpe
            &&& after.1.weights[te].names.contains(before.1.path + seq![':'] + "wte"@)
            &&& after.1.weights[pe].names.contains(before.1.path + seq![':'] + "wpe"@)
            &&& forall|c: u64| #[trigger]
                before.1.tensors.contains_key(c) ==> after.1.tensors[c] == before.1.tensors[c]
        }),
        after.0.te == before.0.te,
        after.0.pe == before.0.pe,
        after.0.tokens is None,
{
    let (te, pe) = (before.0.te.id, before.0.pe.id);
    let t1 = choose|took: Duration| between.1 == #[trigger] before.1.timed(took);
    let t2 = choose|took: Duration|
        after.1 == #[trigger] between.0.registered(between.1).timed(took);
    before.1.law_gradients_apart("wte"@, te, "wpe"@, pe);
    assert(before.1.path.push(':') =~= before.1.path + seq![':']);
    assert(seq![tokens][0] == tokens && seq![dy][0] == dy);
    lemma_size3(outputs[0].dims);
    assert(outputs[0].dims[0] * outputs[0].dims[1] * outputs[0].dims[2] == 0) by (nonlinear_arith)
        requires
            outputs[0].dims[0] == 0,
    ;
}

} // verus!
