//! Causal self-attention with several heads.
use crate::scalar::{cell2, Scalar};
use crate::tensor::{lemma_size3, lemma_size4, Tensor};
use crate::vector::{
    exponentials, exponentiate, lemma_overwritten_elsewhere, lemma_overwritten_here,
    lemma_place_bound, lemma_places_apart, lemma_rows_apart, multiply, overwritten, products, scale,
    scaled, sum, sum_from, zero_vec, zeros,
};
use vstd::prelude::*;

verus! {

/// How the rows of queries, keys and values split into heads.
///
/// A row has `d3` columns: the queries in the first `d`, the keys in the next
/// `d`, the values in the next `d`.  Head `h` has the `dh` columns from
/// `h * dh` on in each of the three.
pub struct Heads {
    /// The number of positions of a sequence.
    pub n: usize,
    /// The number of heads.
    pub nh: usize,
    /// The width of an input row.
    pub d3: usize,
    /// The width of an output row.
    pub d: usize,
    /// The width of a head.
    pub dh: usize,
}

impl Heads {
    /// Whether the widths belong together.
    pub open spec fn wf(&self) -> bool {
        &&& self.nh > 0
        &&& self.d == self.d3 / 3
        &&& self.dh == self.d / self.nh
    }

    /// Where head `h` of part `p` (query, key, value) of the input at position
    /// `t` of sequence `b` starts.
    pub open spec fn part(&self, b: int, t: int, p: int, h: int) -> int {
        (b * self.n + t) * self.d3 + (p * self.d + h * self.dh)
    }

    /// Where head `h` of the output at position `t` of sequence `b` starts.
    pub open spec fn out(&self, b: int, t: int, h: int) -> int {
        (b * self.n + t) * self.d + h * self.dh
    }

    /// Where the weights that head `h` gives at position `t` of sequence `b` start.
    pub open spec fn weights(&self, b: int, h: int, t: int) -> int {
        ((b * self.nh + h) * self.n + t) * self.n
    }

    /// Splits a row width and a number of heads.
    pub fn new(n: usize, nh: usize, d3: usize) -> (g: Self)
        requires
            nh > 0,
        ensures
            g.wf(),
            g.n == n,
            g.nh == nh,
            g.d3 == d3,
    {
        let d = d3 / 3;
        Heads { n, nh, d3, d, dh: d / nh }
    }

    /// A head lies within its part, and a part within its row.
    pub proof fn lemma_part(&self, b: int, t: int, p: int, h: int, batch: int)
        requires
            self.wf(),
            0 <= b < batch,
            0 <= t < self.n,
            0 <= p < 3,
            0 <= h < self.nh,
        ensures
            0 <= b * self.n,
            0 <= (b * self.n + t) * self.d3,
            0 <= h * self.dh,
            h * self.dh + self.dh <= self.d,
            0 <= p * self.d,
            p * self.d + self.d <= self.d3,
            self.part(b, t, p, h) + self.dh <= batch * self.n * self.d3,
    {
        let (nh, d, dh) = (self.nh as int, self.d as int, self.dh as int);
        assert(dh == d / nh);
        assert(nh * dh <= d) by (nonlinear_arith)
            requires
                dh == d / nh,
                nh > 0,
                d >= 0,
        ;
        assert(h * dh + dh <= nh * dh && 0 <= h * dh) by (nonlinear_arith)
            requires
                0 <= h < nh,
                0 <= dh,
        ;
        assert(0 <= p * d && p * d + d <= 3 * d) by (nonlinear_arith)
            requires
                0 <= p < 3,
                0 <= d,
        ;
        lemma_place_bound(b, t, batch, self.n as int);
        lemma_rows_apart(b * self.n + t, batch * self.n, self.d3 as int);
    }

    /// A head of the output lies within its row.
    pub proof fn lemma_out(&self, b: int, t: int, h: int, batch: int)
        requires
            self.wf(),
            0 <= b < batch,
            0 <= t < self.n,
            0 <= h < self.nh,
        ensures
            0 <= (b * self.n + t) * self.d,
            0 <= self.out(b, t, h),
            self.out(b, t, h) + self.dh <= batch * self.n * self.d,
    {
        self.lemma_part(b, t, 0, h, batch);
        lemma_place_bound(b, t, batch, self.n as int);
        lemma_rows_apart(b * self.n + t, batch * self.n, self.d as int);
    }

    /// Two heads of the output do not overlap.
    pub proof fn lemma_out_apart(
        &self,
        b1: int,
        t1: int,
        h1: int,
        b2: int,
        t2: int,
        h2: int,
        batch: int,
    )
        requires
            self.wf(),
            0 <= b1 < batch,
            0 <= t1 < self.n,
            0 <= h1 < self.nh,
            0 <= b2 < batch,
            0 <= t2 < self.n,
            0 <= h2 < self.nh,
            b1 != b2 || t1 != t2 || h1 != h2,
        ensures
            self.out(b1, t1, h1) + self.dh <= self.out(b2, t2, h2) || self.out(b2, t2, h2)
                + self.dh <= self.out(b1, t1, h1),
    {
        let (n, d, dh) = (self.n as int, self.d as int, self.dh as int);
        self.lemma_part(b1, t1, 0, h1, batch);
        self.lemma_part(b2, t2, 0, h2, batch);
        let r1 = b1 * n + t1;
        let r2 = b2 * n + t2;
        if r1 < r2 {
            lemma_rows_apart(r1, r2, d);
        } else if r2 < r1 {
            lemma_rows_apart(r2, r1, d);
        } else {
            lemma_places_apart(b1, t1, b2, t2, n);
            if h1 < h2 {
                lemma_rows_apart(h1, h2, dh);
            } else {
                lemma_rows_apart(h2, h1, dh);
            }
        }
    }

    /// The weights of one head at one position lie within their tensor.
    pub proof fn lemma_weights(&self, b: int, h: int, t: int, batch: int)
        requires
            0 <= b < batch,
            0 <= t < self.n,
            0 <= h < self.nh,
        ensures
            0 <= b * self.nh + h,
            0 <= (b * self.nh + h) * self.n,
            0 <= self.weights(b, h, t),
            self.weights(b, h, t) + self.n <= batch * self.nh * self.n * self.n,
    {
        lemma_place_bound(b, h, batch, self.nh as int);
        lemma_place_bound(b * self.nh + h, t, batch * self.nh, self.n as int);
        lemma_rows_apart(
            (b * self.nh + h) * self.n + t,
            batch * self.nh * self.n,
            self.n as int,
        );
    }

    /// Two rows of weights do not overlap.
    pub proof fn lemma_weights_apart(
        &self,
        b1: int,
        h1: int,
        t1: int,
        b2: int,
        h2: int,
        t2: int,
        batch: int,
    )
        requires
            0 <= b1 < batch,
            0 <= t1 < self.n,
            0 <= h1 < self.nh,
            0 <= b2 < batch,
            0 <= t2 < self.n,
            0 <= h2 < self.nh,
            b1 != b2 || t1 != t2 || h1 != h2,
        ensures
            self.weights(b1, h1, t1) + self.n <= self.weights(b2, h2, t2) || self.weights(
                b2,
                h2,
                t2,
            ) + self.n <= self.weights(b1, h1, t1),
    {
        let n = self.n as int;
        self.lemma_weights(b1, h1, t1, batch);
        self.lemma_weights(b2, h2, t2, batch);
        let r1 = (b1 * self.nh + h1) * n + t1;
        let r2 = (b2 * self.nh + h2) * n + t2;
        if r1 < r2 {
            lemma_rows_apart(r1, r2, n);
        } else if r2 < r1 {
            lemma_rows_apart(r2, r1, n);
        } else {
            lemma_places_apart(b1 * self.nh + h1, t1, b2 * self.nh + h2, t2, n);
            lemma_places_apart(b1, h1, b2, h2, self.nh as int);
        }
    }
}

/// The part of an input row that starts at `at`.
pub open spec fn slice<E>(cells: Seq<E>, at: int, len: int) -> Seq<E> {
    cells.subrange(at, at + len)
}

/// The query of head `h` at position `t` of sequence `b`.
pub open spec fn query<E>(x: Seq<E>, g: Heads, b: int, t: int, h: int) -> Seq<E> {
    slice(x, g.part(b, t, 0, h), g.dh as int)
}

/// The key of head `h` at position `t` of sequence `b`.
pub open spec fn key<E>(x: Seq<E>, g: Heads, b: int, t: int, h: int) -> Seq<E> {
    slice(x, g.part(b, t, 1, h), g.dh as int)
}

/// The value of head `h` at position `t` of sequence `b`.
pub open spec fn value<E>(x: Seq<E>, g: Heads, b: int, t: int, h: int) -> Seq<E> {
    slice(x, g.part(b, t, 2, h), g.dh as int)
}

/// What a product of query and key is scaled by.
pub open spec fn scaling<E: Scalar>(g: Heads) -> E {
    E::count_spec(g.dh).rsqrt_spec()
}

/// How well the key at position `s` answers the query at position `t`.
pub open spec fn score<E: Scalar>(x: Seq<E>, g: Heads, b: int, h: int, t: int, s: int) -> E {
    sum_from(
        E::empty_sum_spec(),
        products(query(x, g, b, t, h), key(x, g, b, s, h)),
    ).times_spec(scaling(g))
}

/// The scores of the positions up to `t`.
pub open spec fn scores<E: Scalar>(x: Seq<E>, g: Heads, b: int, h: int, t: int) -> Seq<E> {
    Seq::new((t + 1) as nat, |s: int| score(x, g, b, h, t, s))
}

/// The greatest of `xs`, as far as one is greater than what came before it;
/// `start` where there is none.
pub open spec fn peak<E: Scalar>(start: E, xs: Seq<E>) -> E
    decreases xs.len(),
{
    if xs.len() == 0 {
        start
    } else {
        peak(start, xs.drop_last()).raised_spec(xs.last())
    }
}

/// The softmax of `xs`: exponentials below the greatest of them, times the
/// inverse of their sum.
pub open spec fn softmax_weights<E: Scalar>(xs: Seq<E>) -> Seq<E> {
    let exps = exponentials(xs, peak(E::bottom_spec(), xs));
    scaled(exps, E::one_spec().over_spec(sum_from(E::zero_spec(), exps)))
}

/// The weights that head `h` gives to the positions up to `t`.
pub open spec fn attention<E: Scalar>(x: Seq<E>, g: Heads, b: int, h: int, t: int) -> Seq<E> {
    softmax_weights(scores(x, g, b, h, t))
}

/// The values of the positions up to `t`, weighted and added up.
pub open spec fn mixed<E: Scalar>(
    x: Seq<E>,
    g: Heads,
    b: int,
    h: int,
    weights: Seq<E>,
) -> Seq<E> {
    Seq::new(
        g.dh as nat,
        |j: int|
            sum_from(
                E::zero_spec(),
                Seq::new(
                    weights.len(),
                    |s: int| weights[s].times_spec(value(x, g, b, s, h)[j]),
                ),
            ),
    )
}

/// Finds the greatest of `xs`.
fn find_peak<E: Scalar>(start: E, xs: &Vec<E>) -> (r: E)
    ensures
        r == peak(start, xs@),
{
    let mut acc = start;
    let mut i: usize = 0;
    while i < xs.len()
        invariant
            i <= xs.len(),
            acc == peak(start, xs@.take(i as int)),
        decreases xs.len() - i,
    {
        acc = acc.raised(&xs[i]);
        i += 1;
        assert(xs@.take(i as int).drop_last() =~= xs@.take(i - 1));
    }
    assert(xs@.take(i as int) =~= xs@);
    acc
}

/// Computes the softmax of `xs`.
fn weigh<E: Scalar>(xs: &Vec<E>) -> (r: Vec<E>)
    ensures
        r@ == softmax_weights(xs@),
{
    let top = find_peak(E::bottom(), xs);
    let exps = exponentiate(xs, &top);
    let total = sum(E::zero(), &exps);
    let inverse = E::one().over(&total);
    scale(&exps, &inverse)
}

/// Whether the input has the width and the length that the heads ask for.
pub open spec fn input_fits<E: Scalar>(x: &Tensor<E>, g: Heads, batch: int) -> bool {
    &&& x.is_real()
    &&& x.cells().len() == batch * g.n * g.d3
    &&& batch * g.n <= usize::MAX
}

impl Heads {
    /// Computes where a head of an input part starts.
    pub(crate) fn place<E: Scalar>(
        &self,
        x: &Tensor<E>,
        batch: usize,
        b: usize,
        t: usize,
        p: usize,
        h: usize,
    ) -> (at: usize)
        requires
            self.wf(),
            input_fits(x, *self, batch as int),
            b < batch,
            t < self.n,
            p < 3,
            h < self.nh,
        ensures
            at == self.part(b as int, t as int, p as int, h as int),
            at + self.dh <= x.cells().len(),
    {
        let _len = x.real_len();
        proof {
            self.lemma_part(b as int, t as int, p as int, h as int, batch as int);
            lemma_place_bound(b as int, t as int, batch as int, self.n as int);
        }
        (b * self.n + t) * self.d3 + (p * self.d + h * self.dh)
    }
}

/// Computes the scores of the positions up to `t`.
fn compute_scores<E: Scalar>(
    x: &Tensor<E>,
    g: &Heads,
    batch: usize,
    b: usize,
    h: usize,
    t: usize,
) -> (r: Vec<E>)
    requires
        g.wf(),
        input_fits(x, *g, batch as int),
        b < batch,
        t < g.n,
        h < g.nh,
    ensures
        r@ == scores(x.cells(), *g, b as int, h as int, t as int),
{
    let q = x.segment(g.place(x, batch, b, t, 0, h), g.dh);
    let factor = E::count(g.dh).rsqrt();
    let mut r: Vec<E> = Vec::new();
    while r.len() <= t
        invariant
            g.wf(),
            input_fits(x, *g, batch as int),
            b < batch,
            t < g.n,
            h < g.nh,
            q@ == query(x.cells(), *g, b as int, t as int, h as int),
            q.len() == g.dh,
            factor == scaling::<E>(*g),
            r.len() <= t + 1,
            forall|s: int|
                0 <= s < r.len() ==> #[trigger] r@[s] == score(
                    x.cells(),
                    *g,
                    b as int,
                    h as int,
                    t as int,
                    s,
                ),
        decreases t + 1 - r.len(),
    {
        let k = x.segment(g.place(x, batch, b, r.len(), 1, h), g.dh);
        let dot = sum(E::empty_sum(), &multiply(&q, &k));
        r.push(dot.times(&factor));
    }
    assert(r@ =~= scores(x.cells(), *g, b as int, h as int, t as int));
    r
}

/// Computes the weighted sum of the values of the positions up to `t`.
fn mix<E: Scalar>(
    x: &Tensor<E>,
    g: &Heads,
    batch: usize,
    b: usize,
    h: usize,
    t: usize,
    weights: &Vec<E>,
) -> (r: Vec<E>)
    requires
        g.wf(),
        input_fits(x, *g, batch as int),
        b < batch,
        t < g.n,
        h < g.nh,
        weights.len() == t + 1,
    ensures
        r@ == mixed(x.cells(), *g, b as int, h as int, weights@),
{
    let mut r: Vec<E> = zero_vec(g.dh);
    let mut s: usize = 0;
    let ghost terms = |j: int, s: int|
        Seq::new(
            s as nat,
            |s2: int|
                weights@[s2].times_spec(value(x.cells(), *g, b as int, s2, h as int)[j]),
        );
    while s <= t
        invariant
            g.wf(),
            input_fits(x, *g, batch as int),
            b < batch,
            t < g.n,
            h < g.nh,
            weights.len() == t + 1,
            s <= t + 1,
            r.len() == g.dh,
            forall|j: int|
                0 <= j < g.dh ==> #[trigger] r@[j] == sum_from(E::zero_spec(), terms(j, s as int)),
            terms == (|j: int, s: int|
                Seq::new(
                    s as nat,
                    |s2: int|
                        weights@[s2].times_spec(value(x.cells(), *g, b as int, s2, h as int)[j]),
                )),
        decreases t + 1 - s,
    {
        let v = x.segment(g.place(x, batch, b, s, 2, h), g.dh);
        let mut next: Vec<E> = Vec::new();
        while next.len() < g.dh
            invariant
                next.len() <= g.dh,
                r.len() == g.dh,
                v.len() == g.dh,
                s < weights.len(),
                forall|j: int|
                    0 <= j < next.len() ==> #[trigger] next@[j] == r@[j].plus_spec(
                        weights@[s as int].times_spec(v@[j]),
                    ),
            decreases g.dh - next.len(),
        {
            let j: usize = next.len();
            next.push(r[j].plus(&weights[s].times(&v[j])));
        }
        proof {
            assert forall|j: int| 0 <= j < g.dh implies #[trigger] next@[j] == sum_from(
                E::zero_spec(),
                terms(j, s + 1),
            ) by {
                assert(terms(j, s + 1).drop_last() =~= terms(j, s as int));
                assert(r@[j] == sum_from(E::zero_spec(), terms(j, s as int)));
            }
        }
        r = next;
        s += 1;
    }
    proof {
        let goal = mixed(x.cells(), *g, b as int, h as int, weights@);
        assert forall|j: int| 0 <= j < g.dh implies #[trigger] r@[j] == goal[j] by {
            assert(terms(j, s as int) =~= Seq::new(
                weights@.len(),
                |s2: int| weights@[s2].times_spec(value(x.cells(), *g, b as int, s2, h as int)[j]),
            ));
        }
        assert(r@ =~= goal);
    }
    r
}

/// Whether sequence, position and head come earlier in the walk over them all.
pub open spec fn earlier(b1: int, t1: int, h1: int, b2: int, t2: int, h2: int) -> bool {
    b1 < b2 || (b1 == b2 && (t1 < t2 || (t1 == t2 && h1 < h2)))
}

/// Whether these are a sequence, a position and a head.
pub open spec fn in_walk(g: Heads, batch: int, b: int, t: int, h: int) -> bool {
    0 <= b < batch && 0 <= t < g.n && 0 <= h < g.nh
}

/// What the three results hold for head `h` at position `t` of sequence `b`.
pub open spec fn attended<E: Scalar>(
    y: Seq<E>,
    preatt: Seq<E>,
    att: Seq<E>,
    x: Seq<E>,
    preatt_before: Seq<E>,
    g: Heads,
    b: int,
    t: int,
    h: int,
) -> bool {
    let n = g.n as int;
    let weights = attention(x, g, b, h, t);
    &&& slice(y, g.out(b, t, h), g.dh as int) == mixed(x, g, b, h, weights)
    &&& slice(att, g.weights(b, h, t), n) == weights + zeros::<E>(n - t - 1)
    &&& slice(preatt, g.weights(b, h, t), n) == scores(x, g, b, h, t) + slice(
        preatt_before,
        g.weights(b, h, t) + t + 1,
        n - t - 1,
    )
}

/// Where the walk has come to `(b, t, h)`: all that comes earlier is done, and
/// the rest is as it was.
spec fn walked<E: Scalar>(
    y: Seq<E>,
    preatt: Seq<E>,
    att: Seq<E>,
    y0: Seq<E>,
    preatt0: Seq<E>,
    x: Seq<E>,
    g: Heads,
    batch: int,
    b: int,
    t: int,
    h: int,
) -> bool {
    &&& y.len() == y0.len() == batch * g.n * g.d
    &&& preatt.len() == preatt0.len() == batch * g.nh * g.n * g.n
    &&& att.len() == batch * g.nh * g.n * g.n
    &&& forall|b2: int, t2: int, h2: int|
        in_walk(g, batch, b2, t2, h2) && earlier(b2, t2, h2, b, t, h) ==> #[trigger] attended(
            y,
            preatt,
            att,
            x,
            preatt0,
            g,
            b2,
            t2,
            h2,
        )
    &&& forall|b2: int, t2: int, h2: int|
        in_walk(g, batch, b2, t2, h2) && !earlier(b2, t2, h2, b, t, h) ==> slice(
            preatt,
            #[trigger] g.weights(b2, h2, t2),
            g.n as int,
        ) == slice(preatt0, g.weights(b2, h2, t2), g.n as int)
    &&& forall|r: int, c: int|
        0 <= r < batch * g.n && g.nh * g.dh <= c < g.d ==> #[trigger] cell2(y, g.d as int, r, c)
            == cell2(y0, g.d as int, r, c)
}

/// One head at one position carries the walk one step on.
proof fn lemma_walk_step<E: Scalar>(
    y: Seq<E>,
    preatt: Seq<E>,
    att: Seq<E>,
    y0: Seq<E>,
    preatt0: Seq<E>,
    x: Seq<E>,
    g: Heads,
    batch: int,
    b: int,
    t: int,
    h: int,
)
    requires
        g.wf(),
        in_walk(g, batch, b, t, h),
        walked(y, preatt, att, y0, preatt0, x, g, batch, b, t, h),
    ensures
        walked(
            overwritten(y, g.out(b, t, h), mixed(x, g, b, h, attention(x, g, b, h, t))),
            overwritten(preatt, g.weights(b, h, t), scores(x, g, b, h, t)),
            overwritten(
                att,
                g.weights(b, h, t),
                attention(x, g, b, h, t) + zeros::<E>(g.n - t - 1),
            ),
            y0,
            preatt0,
            x,
            g,
            batch,
            b,
            t,
            h + 1,
        ),
{
    let n = g.n as int;
    let dh = g.dh as int;
    let weights = attention(x, g, b, h, t);
    let out = mixed(x, g, b, h, weights);
    let tail = weights + zeros::<E>(n - t - 1);
    let marks = scores(x, g, b, h, t);
    let y2 = overwritten(y, g.out(b, t, h), out);
    let preatt2 = overwritten(preatt, g.weights(b, h, t), marks);
    let att2 = overwritten(att, g.weights(b, h, t), tail);
    g.lemma_out(b, t, h, batch);
    g.lemma_weights(b, h, t, batch);
    lemma_overwritten_here(y, g.out(b, t, h), out);
    lemma_overwritten_here(att, g.weights(b, h, t), tail);
    assert(slice(preatt, g.weights(b, h, t), n) == slice(preatt0, g.weights(b, h, t), n));
    let at = g.weights(b, h, t);
    let kept = marks + slice(preatt0, at + t + 1, n - t - 1);
    assert forall|i: int| 0 <= i < n implies #[trigger] slice(preatt2, at, n)[i] == kept[i] by {
        assert(slice(preatt, at, n)[i] == slice(preatt0, at, n)[i]);
    }
    assert(slice(preatt2, at, n) =~= kept);
    assert(attended(y2, preatt2, att2, x, preatt0, g, b, t, h));
    assert forall|b2: int, t2: int, h2: int|
        in_walk(g, batch, b2, t2, h2) && earlier(b2, t2, h2, b, t, h + 1) implies #[trigger] attended(
        y2,
        preatt2,
        att2,
        x,
        preatt0,
        g,
        b2,
        t2,
        h2,
    ) by {
        if b2 == b && t2 == t && h2 == h {
        } else {
            assert(attended(y, preatt, att, x, preatt0, g, b2, t2, h2));
            g.lemma_out(b2, t2, h2, batch);
            g.lemma_weights(b2, h2, t2, batch);
            g.lemma_out_apart(b, t, h, b2, t2, h2, batch);
            g.lemma_weights_apart(b, h, t, b2, h2, t2, batch);
            let (o2, w2) = (g.out(b2, t2, h2), g.weights(b2, h2, t2));
            lemma_overwritten_elsewhere(y, g.out(b, t, h), out, o2, o2 + dh);
            lemma_overwritten_elsewhere(att, g.weights(b, h, t), tail, w2, w2 + n);
            lemma_overwritten_elsewhere(preatt, g.weights(b, h, t), marks, w2, w2 + n);
        }
    }
    assert forall|b2: int, t2: int, h2: int|
        in_walk(g, batch, b2, t2, h2) && !earlier(b2, t2, h2, b, t, h + 1) implies slice(
        preatt2,
        #[trigger] g.weights(b2, h2, t2),
        n,
    ) == slice(preatt0, g.weights(b2, h2, t2), n) by {
        g.lemma_weights(b2, h2, t2, batch);
        g.lemma_weights_apart(b, h, t, b2, h2, t2, batch);
        let w2 = g.weights(b2, h2, t2);
        lemma_overwritten_elsewhere(preatt, g.weights(b, h, t), marks, w2, w2 + n);
    }
    assert forall|r: int, c: int|
        0 <= r < batch * g.n && g.nh * g.dh <= c < g.d implies #[trigger] cell2(
        y2,
        g.d as int,
        r,
        c,
    ) == cell2(y0, g.d as int, r, c) by {
        let d = g.d as int;
        assert(cell2(y, d, r, c) == cell2(y0, d, r, c));
        lemma_place_bound(r, c, batch * g.n, d);
        let r2 = b * n + t;
        g.lemma_part(b, t, 0, h, batch);
        lemma_rows_apart(h, g.nh as int, dh);
        if r < r2 {
            lemma_rows_apart(r, r2, d);
        } else if r2 < r {
            lemma_rows_apart(r2, r, d);
        }
    }
}

/// There are no more rows than weights.
pub proof fn lemma_rows_bound(batch: int, n: int, nh: int)
    requires
        0 <= batch,
        0 <= n,
        1 <= nh,
    ensures
        batch * n <= batch * nh * n * n,
{
    if n == 0 {
        assert(batch * n == 0 && batch * nh * n * n == 0) by (nonlinear_arith)
            requires
                n == 0,
        ;
    } else {
        assert(batch <= batch * nh) by (nonlinear_arith)
            requires
                0 <= batch,
                1 <= nh,
        ;
        let heads = batch * nh;
        assert(batch * n <= heads * n) by (nonlinear_arith)
            requires
                batch <= heads,
                1 <= n,
        ;
        let rows = heads * n;
        assert(rows <= rows * n) by (nonlinear_arith)
            requires
                0 <= heads,
                rows == heads * n,
                1 <= n,
        ;
    }
}

/// Whether the shapes of the operands belong together.
pub open spec fn shapes_fit(
    y: Seq<usize>,
    preatt: Seq<usize>,
    att: Seq<usize>,
    x: Seq<usize>,
) -> bool {
    &&& y.len() == 3
    &&& x.len() == 3
    &&& preatt.len() == 4
    &&& att.len() == 4
    &&& y[0] == x[0] == preatt[0] == att[0]
    &&& y[1] == x[1] == preatt[2] == preatt[3] == att[2] == att[3]
    &&& preatt[1] == att[1]
    &&& y[2] == x[2] / 3
}

/// The heads of operands of these shapes.
pub open spec fn heads_of(att: Seq<usize>, x: Seq<usize>) -> Heads {
    let d = (x[2] / 3) as usize;
    Heads { n: x[1], nh: att[1], d3: x[2], d, dh: (d / att[1]) as usize }
}

/// Attends: for every head, at every position of every sequence, scores the
/// positions up to it (`preatt`), turns the scores into weights (`att`), and
/// mixes the values by their weights (`y`).
pub fn forward<E: Scalar>(
    y: &mut Tensor<E>,
    preatt: &mut Tensor<E>,
    att: &mut Tensor<E>,
    x: &Tensor<E>,
)
    requires
        old(y).holds_reals(),
        old(preatt).holds_reals(),
        old(att).holds_reals(),
        x.holds_reals(),
        shapes_fit(old(y).dims(), old(preatt).dims(), old(att).dims(), x.dims()),
        old(att).dims()[1] > 0,
    ensures
        old(y).same_form(final(y)),
        old(preatt).same_form(final(preatt)),
        old(att).same_form(final(att)),
        ({
            let g = heads_of(old(att).dims(), x.dims());
            &&& forall|b: int, t: int, h: int|
                in_walk(g, x.dims()[0] as int, b, t, h) ==> #[trigger] attended(
                    final(y).cells(),
                    final(preatt).cells(),
                    final(att).cells(),
                    x.cells(),
                    old(preatt).cells(),
                    g,
                    b,
                    t,
                    h,
                )
            &&& forall|r: int, c: int|
                0 <= r < x.dims()[0] * g.n && g.nh * g.dh <= c < g.d ==> #[trigger] cell2(
                    final(y).cells(),
                    g.d as int,
                    r,
                    c,
                ) == cell2(old(y).cells(), g.d as int, r, c)
        }),
{
    let batch = x.dim(0);
    let g = Heads::new(x.dim(1), att.dim(1), x.dim(2));
    let ghost y0 = y.cells();
    let ghost preatt0 = preatt.cells();
    let ghost xs = x.cells();
    let ghost (yb, pb, ab) = (*y, *preatt, *att);
    proof {
        lemma_size3(y.dims());
        lemma_size3(x.dims());
        lemma_size4(preatt.dims());
        lemma_size4(att.dims());
        lemma_rows_bound(batch as int, g.n as int, g.nh as int);
    }
    let _len = att.real_len();
    let mut b: usize = 0;
    while b < batch
        invariant
            b <= batch,
            g.wf(),
            input_fits(x, g, batch as int),
            xs == x.cells(),
            yb.same_form(y),
            pb.same_form(preatt),
            ab.same_form(att),
            yb.is_real() && pb.is_real() && ab.is_real(),
            walked(
                y.cells(),
                preatt.cells(),
                att.cells(),
                y0,
                preatt0,
                xs,
                g,
                batch as int,
                b as int,
                0,
                0,
            ),
        decreases batch - b,
    {
        let mut t: usize = 0;
        while t < g.n
            invariant
                b < batch,
                t <= g.n,
                g.wf(),
                input_fits(x, g, batch as int),
                xs == x.cells(),
                yb.same_form(y),
                pb.same_form(preatt),
                ab.same_form(att),
                yb.is_real() && pb.is_real() && ab.is_real(),
                walked(
                    y.cells(),
                    preatt.cells(),
                    att.cells(),
                    y0,
                    preatt0,
                    xs,
                    g,
                    batch as int,
                    b as int,
                    t as int,
                    0,
                ),
            decreases g.n - t,
        {
            let mut h: usize = 0;
            while h < g.nh
                invariant
                    b < batch,
                    t < g.n,
                    h <= g.nh,
                    g.wf(),
                    input_fits(x, g, batch as int),
                    xs == x.cells(),
                    yb.same_form(y),
                    pb.same_form(preatt),
                    ab.same_form(att),
                    yb.is_real() && pb.is_real() && ab.is_real(),
                    walked(
                        y.cells(),
                        preatt.cells(),
                        att.cells(),
                        y0,
                        preatt0,
                        xs,
                        g,
                        batch as int,
                        b as int,
                        t as int,
                        h as int,
                    ),
                decreases g.nh - h,
            {
                let marks = compute_scores(x, &g, batch, b, h, t);
                let mut weights = weigh(&marks);
                let out = mix(x, &g, batch, b, h, t, &weights);
                let mut tail: Vec<E> = zero_vec(g.n - t - 1);
                weights.append(&mut tail);
                proof {
                    lemma_walk_step(
                        y.cells(),
                        preatt.cells(),
                        att.cells(),
                        y0,
                        preatt0,
                        xs,
                        g,
                        batch as int,
                        b as int,
                        t as int,
                        h as int,
                    );
                    g.lemma_out(b as int, t as int, h as int, batch as int);
                    g.lemma_weights(b as int, h as int, t as int, batch as int);
                }
                y.overwrite(g.out_place(batch, b, t, h, y), &out);
                let at = g.weights_place(batch, b, h, t, att);
                preatt.overwrite(at, &marks);
                att.overwrite(at, &weights);
                h += 1;
            }
            t += 1;
        }
        b += 1;
    }
}

impl Heads {
    /// Computes where a head of the output starts.
    pub(crate) fn out_place<E: Scalar>(
        &self,
        batch: usize,
        b: usize,
        t: usize,
        h: usize,
        y: &Tensor<E>,
    ) -> (at: usize)
        requires
            self.wf(),
            b < batch,
            t < self.n,
            h < self.nh,
            batch * self.n <= usize::MAX,
            y.cells().len() == batch * self.n * self.d,
            y.is_real(),
        ensures
            at == self.out(b as int, t as int, h as int),
    {
        proof {
            self.lemma_out(b as int, t as int, h as int, batch as int);
            self.lemma_part(b as int, t as int, 0, h as int, batch as int);
            lemma_place_bound(b as int, t as int, batch as int, self.n as int);
        }
        let _len = y.real_len();
        (b * self.n + t) * self.d + h * self.dh
    }

    /// Computes where a row of weights starts.
    pub(crate) fn weights_place<E: Scalar>(
        &self,
        batch: usize,
        b: usize,
        h: usize,
        t: usize,
        att: &Tensor<E>,
    ) -> (at: usize)
        requires
            b < batch,
            t < self.n,
            h < self.nh,
            att.cells().len() == batch * self.nh * self.n * self.n,
            att.is_real(),
        ensures
            at == self.weights(b as int, h as int, t as int),
    {
        let _len = att.real_len();
        proof {
            self.lemma_weights(b as int, h as int, t as int, batch as int);
            let n = self.n as int;
            let r = (b * self.nh + h) * n + t;
            assert(r <= r * n) by (nonlinear_arith)
                requires
                    n >= 1,
                    r >= 0,
            ;
            let q = b * self.nh + h;
            assert(q <= q * n) by (nonlinear_arith)
                requires
                    n >= 1,
                    q >= 0,
            ;
        }
        ((b * self.nh + h) * self.n + t) * self.n
    }
}

} // verus!
