//! The gradient of causal self-attention.
use crate::nn::attention::forward::{
    earlier, heads_of, in_walk, input_fits, lemma_rows_bound, scaling, shapes_fit, slice, value,
    Heads,
};
use crate::scalar::Scalar;
use crate::tensor::{lemma_size3, lemma_size4, Tensor};
use crate::vector::{
    accumulated, lemma_overwritten_elsewhere, lemma_place_bound, multiply, overwritten, products,
    scale, scaled, sum, sum_from,
};
use vstd::prelude::*;

verus! {

impl Heads {
    /// Where head `h` of the query at position `t` of sequence `b` starts, where
    /// the three parts of a row follow each other without a gap.
    pub open spec fn dense_query(&self, b: int, t: int, h: int) -> int {
        b * self.n * self.d3 + (t * 3 * self.d + h * self.dh)
    }

    /// Where head `h` of the key at position `t` of sequence `b` starts, where
    /// the three parts of a row follow each other without a gap.
    pub open spec fn dense_key(&self, b: int, t: int, h: int) -> int {
        b * self.n * self.d3 + ((t * 3 + 1) * self.d + h * self.dh)
    }

    /// Queries and keys lie within the sequence.
    pub proof fn lemma_dense(&self, b: int, t: int, h: int, batch: int)
        requires
            self.wf(),
            0 <= b < batch,
            0 <= t < self.n,
            0 <= h < self.nh,
        ensures
            0 <= b * self.n,
            0 <= b * self.n * self.d3,
            0 <= t * 3 * self.d,
            0 <= (t * 3 + 1) * self.d,
            0 <= h * self.dh,
            b * self.n * self.d3 <= batch * self.n * self.d3,
            t * 3 * self.d + h * self.dh + self.dh <= self.n * self.d3,
            (t * 3 + 1) * self.d + h * self.dh + self.dh <= self.n * self.d3,
            self.dense_query(b, t, h) + self.dh <= batch * self.n * self.d3,
            self.dense_key(b, t, h) + self.dh <= batch * self.n * self.d3,
    {
        self.lemma_part(b, t, 0, h, batch);
        let (n, d, d3) = (self.n as int, self.d as int, self.d3 as int);
        assert(3 * d <= d3);
        assert(t * 3 * d >= 0 && (t * 3 + 1) * d + d <= n * (3 * d) && (t * 3 + 1) * d == t * 3 * d
            + d) by (nonlinear_arith)
            requires
                0 <= t < n,
                0 <= d,
        ;
        assert(n * (3 * d) <= n * d3) by (nonlinear_arith)
            requires
                3 * d <= d3,
                0 <= n,
        ;
        assert(0 <= b * n && b * n * d3 + n * d3 <= batch * n * d3 && 0 <= b * n * d3 && 0 <= n
            * d3) by (nonlinear_arith)
            requires
                0 <= b < batch,
                0 <= n,
                0 <= d3,
        ;
    }

    /// Computes where a query starts.
    fn query_place<E: Scalar>(
        &self,
        x: &Tensor<E>,
        batch: usize,
        b: usize,
        t: usize,
        h: usize,
    ) -> (at: usize)
        requires
            self.wf(),
            input_fits(x, *self, batch as int),
            b < batch,
            t < self.n,
            h < self.nh,
        ensures
            at == self.dense_query(b as int, t as int, h as int),
            at + self.dh <= x.cells().len(),
    {
        let _len = x.real_len();
        proof {
            self.lemma_dense(b as int, t as int, h as int, batch as int);
            lemma_place_bound(b as int, t as int, batch as int, self.n as int);
            lemma_triple(t as int, self.d as int);
        }
        if self.d == 0 {
            assert(self.dh == 0) by {
                self.lemma_part(b as int, t as int, 0, h as int, batch as int);
            }
            proof {
                lemma_zero_terms(t as int, h as int, self.d as int, self.dh as int);
            }
            b * self.n * self.d3
        } else {
            b * self.n * self.d3 + (t * 3 * self.d + h * self.dh)
        }
    }

    /// Computes where a key starts.
    fn key_place<E: Scalar>(
        &self,
        x: &Tensor<E>,
        batch: usize,
        b: usize,
        t: usize,
        h: usize,
    ) -> (at: usize)
        requires
            self.wf(),
            input_fits(x, *self, batch as int),
            b < batch,
            t < self.n,
            h < self.nh,
        ensures
            at == self.dense_key(b as int, t as int, h as int),
            at + self.dh <= x.cells().len(),
    {
        let _len = x.real_len();
        proof {
            self.lemma_dense(b as int, t as int, h as int, batch as int);
            lemma_place_bound(b as int, t as int, batch as int, self.n as int);
            lemma_triple(t as int, self.d as int);
        }
        if self.d == 0 {
            assert(self.dh == 0) by {
                self.lemma_part(b as int, t as int, 0, h as int, batch as int);
            }
            proof {
                lemma_zero_terms(t as int, h as int, self.d as int, self.dh as int);
            }
            b * self.n * self.d3
        } else {
            b * self.n * self.d3 + ((t * 3 + 1) * self.d + h * self.dh)
        }
    }
}

/// Three times a position is no more than that many parts.
proof fn lemma_triple(t: int, d: int)
    requires
        0 <= t,
        0 <= d,
    ensures
        d > 0 ==> t * 3 <= t * 3 * d,
        d > 0 ==> t * 3 + 1 <= (t * 3 + 1) * d,
{
    if d > 0 {
        assert(t * 3 <= t * 3 * d && t * 3 + 1 <= (t * 3 + 1) * d) by (nonlinear_arith)
            requires
                0 <= t,
                0 < d,
        ;
    }
}

/// Without columns, every part starts at the same place.
proof fn lemma_zero_terms(t: int, h: int, d: int, dh: int)
    requires
        d == 0,
        dh == 0,
    ensures
        t * 3 * d == 0,
        (t * 3 + 1) * d == 0,
        h * dh == 0,
{
    assert(t * 3 * d == 0 && (t * 3 + 1) * d == 0 && h * dh == 0) by (nonlinear_arith)
        requires
            d == 0,
            dh == 0,
    ;
}

/// The operands of the gradient, as they are at the start.
pub struct Operands<E> {
    /// The heads.
    pub g: Heads,
    /// The queries, keys and values.
    pub x: Seq<E>,
    /// The gradient of the output.
    pub dy: Seq<E>,
    /// The weights.
    pub att: Seq<E>,
    /// The gradient of the weights, so far.
    pub datt: Seq<E>,
    /// The gradient of the scores, so far.
    pub dpreatt: Seq<E>,
}

impl<E: Scalar> Operands<E> {
    /// The weight that head `h` at position `t` gives to position `s`.
    pub open spec fn weight(&self, b: int, h: int, t: int, s: int) -> E {
        self.att[self.g.weights(b, h, t) + s]
    }

    /// The gradient of the output of head `h` at position `t`.
    pub open spec fn share(&self, b: int, t: int, h: int) -> Seq<E> {
        slice(self.dy, self.g.out(b, t, h), self.g.dh as int)
    }

    /// The gradient of the weight that head `h` at position `t` gives to
    /// position `s`.
    pub open spec fn dweight(&self, b: int, h: int, t: int, s: int) -> E {
        sum_from(
            self.datt[self.g.weights(b, h, t) + s],
            products(value(self.x, self.g, b, s, h), self.share(b, t, h)),
        )
    }

    /// The derivative of the weight of position `u` by the score of position
    /// `s`.
    pub open spec fn slope(&self, b: int, h: int, t: int, u: int, s: int) -> E {
        let indicator = if u == s {
            E::one_spec()
        } else {
            E::zero_spec()
        };
        self.weight(b, h, t, u).times_spec(indicator.minus_spec(self.weight(b, h, t, s)))
    }

    /// The gradient of the score that head `h` at position `t` gives to
    /// position `s`.
    pub open spec fn dscore(&self, b: int, h: int, t: int, s: int) -> E {
        sum_from(
            self.dpreatt[self.g.weights(b, h, t) + s],
            Seq::new(
                (t + 1) as nat,
                |u: int| self.slope(b, h, t, u, s).times_spec(self.dweight(b, h, t, u)),
            ),
        )
    }

    /// What head `h` at position `t` adds to the gradient of the value at
    /// position `s`.
    pub open spec fn value_share(&self, b: int, h: int, t: int, s: int) -> Seq<E> {
        Seq::new(
            self.g.dh as nat,
            |j: int| self.weight(b, h, t, s).times_spec(self.share(b, t, h)[j]),
        )
    }

    /// What head `h` at position `t` adds to the gradient of its query for the
    /// key at position `s`.
    pub open spec fn query_share(&self, b: int, h: int, t: int, s: int) -> Seq<E> {
        scaled(
            scaled(
                slice(self.x, self.g.dense_key(b, s, h), self.g.dh as int),
                self.dscore(b, h, t, s),
            ),
            scaling(self.g),
        )
    }

    /// What head `h` at position `t` adds to the gradient of the key at
    /// position `s`.
    pub open spec fn key_share(&self, b: int, h: int, t: int, s: int) -> Seq<E> {
        scaled(
            scaled(
                slice(self.x, self.g.dense_query(b, t, h), self.g.dh as int),
                self.dscore(b, h, t, s),
            ),
            scaling(self.g),
        )
    }

    /// `dx` with the value shares of the first `m` positions.
    pub open spec fn with_values(&self, dx: Seq<E>, b: int, h: int, t: int, m: int) -> Seq<E>
        decreases m,
    {
        if m <= 0 {
            dx
        } else {
            accumulated(
                self.with_values(dx, b, h, t, m - 1),
                self.g.part(b, m - 1, 2, h),
                self.value_share(b, h, t, m - 1),
            )
        }
    }

    /// `dx` with the query and key shares of the first `m` positions.
    pub open spec fn with_keys(&self, dx: Seq<E>, b: int, h: int, t: int, m: int) -> Seq<E>
        decreases m,
    {
        if m <= 0 {
            dx
        } else {
            accumulated(
                accumulated(
                    self.with_keys(dx, b, h, t, m - 1),
                    self.g.dense_query(b, t, h),
                    self.query_share(b, h, t, m - 1),
                ),
                self.g.dense_key(b, m - 1, h),
                self.key_share(b, h, t, m - 1),
            )
        }
    }

    /// `dx` with all that head `h` at position `t` adds.
    pub open spec fn with_head(&self, dx: Seq<E>, b: int, t: int, h: int) -> Seq<E> {
        self.with_keys(self.with_values(dx, b, h, t, t + 1), b, h, t, t + 1)
    }

    /// `dx` with all that the first `m` heads at position `t` add.
    pub open spec fn with_heads(&self, dx: Seq<E>, b: int, t: int, m: int) -> Seq<E>
        decreases m,
    {
        if m <= 0 {
            dx
        } else {
            self.with_head(self.with_heads(dx, b, t, m - 1), b, t, m - 1)
        }
    }

    /// `dx` with all that the first `m` positions add.
    pub open spec fn with_positions(&self, dx: Seq<E>, b: int, m: int) -> Seq<E>
        decreases m,
    {
        if m <= 0 {
            dx
        } else {
            self.with_heads(self.with_positions(dx, b, m - 1), b, m - 1, self.g.nh as int)
        }
    }

    /// `dx` with all that the first `m` sequences add.
    pub open spec fn with_sequences(&self, dx: Seq<E>, m: int) -> Seq<E>
        decreases m,
    {
        if m <= 0 {
            dx
        } else {
            self.with_positions(self.with_sequences(dx, m - 1), m - 1, self.g.n as int)
        }
    }

    /// What the gradients of weights and scores hold for head `h` at position
    /// `t` of sequence `b`.
    pub open spec fn weighed(
        &self,
        datt: Seq<E>,
        dpreatt: Seq<E>,
        b: int,
        t: int,
        h: int,
    ) -> bool {
        let n = self.g.n as int;
        let at = self.g.weights(b, h, t);
        &&& slice(datt, at, n) == Seq::new((t + 1) as nat, |s: int| self.dweight(b, h, t, s))
            + slice(self.datt, at + t + 1, n - t - 1)
        &&& slice(dpreatt, at, n) == Seq::new((t + 1) as nat, |s: int| self.dscore(b, h, t, s))
            + slice(self.dpreatt, at + t + 1, n - t - 1)
    }
}

/// Adds the value shares of one head at one position to `dx`, and returns the
/// gradient of its weights.
fn backward_values<E: Scalar>(
    dx: &mut Tensor<E>,
    datt: &Tensor<E>,
    x: &Tensor<E>,
    share: &Vec<E>,
    weights: &Vec<E>,
    g: &Heads,
    batch: usize,
    b: usize,
    t: usize,
    h: usize,
    Ghost(o): Ghost<Operands<E>>,
) -> (r: Vec<E>)
    requires
        g.wf(),
        o.g == *g,
        input_fits(x, *g, batch as int),
        input_fits(old(dx), *g, batch as int),
        datt.is_real(),
        datt.cells().len() == batch * g.nh * g.n * g.n,
        o.x == x.cells(),
        in_walk(*g, batch as int, b as int, t as int, h as int),
        share@ == o.share(b as int, t as int, h as int),
        share@.len() == g.dh,
        weights@.len() == t + 1,
        forall|s: int|
            0 <= s <= t ==> #[trigger] weights@[s] == o.weight(b as int, h as int, t as int, s),
        slice(datt.cells(), g.weights(b as int, h as int, t as int), g.n as int) == slice(
            o.datt,
            g.weights(b as int, h as int, t as int),
            g.n as int,
        ),
        o.datt.len() == batch * g.nh * g.n * g.n,
    ensures
        old(dx).same_form(final(dx)),
        final(dx).cells().len() == old(dx).cells().len(),
        final(dx).cells() == o.with_values(
            old(dx).cells(),
            b as int,
            h as int,
            t as int,
            t + 1,
        ),
        r@ == Seq::new((t + 1) as nat, |s: int| o.dweight(b as int, h as int, t as int, s)),
{
    let ghost dx0 = *dx;
    let at = g.weights_place(batch, b, h, t, datt);
    proof {
        g.lemma_weights(b as int, h as int, t as int, batch as int);
    }
    let mut r: Vec<E> = Vec::new();
    while r.len() <= t
        invariant
            g.wf(),
            o.g == *g,
            input_fits(x, *g, batch as int),
            input_fits(dx, *g, batch as int),
            dx0.same_form(dx),
            datt.is_real(),
            datt.cells().len() == batch * g.nh * g.n * g.n,
            o.datt.len() == batch * g.nh * g.n * g.n,
            o.x == x.cells(),
            in_walk(*g, batch as int, b as int, t as int, h as int),
            share@ == o.share(b as int, t as int, h as int),
            share@.len() == g.dh,
            weights@.len() == t + 1,
            forall|s: int|
                0 <= s <= t ==> #[trigger] weights@[s] == o.weight(
                    b as int,
                    h as int,
                    t as int,
                    s,
                ),
            at == g.weights(b as int, h as int, t as int),
            at + g.n <= datt.cells().len(),
            slice(datt.cells(), at as int, g.n as int) == slice(o.datt, at as int, g.n as int),
            r.len() <= t + 1,
            forall|s: int|
                0 <= s < r.len() ==> #[trigger] r@[s] == o.dweight(
                    b as int,
                    h as int,
                    t as int,
                    s,
                ),
            dx.cells() == o.with_values(
                dx0.cells(),
                b as int,
                h as int,
                t as int,
                r.len() as int,
            ),
        decreases t + 1 - r.len(),
    {
        let s: usize = r.len();
        let place = g.place(x, batch, b, s, 2, h);
        let v = x.segment(place, g.dh);
        let _len = datt.real_len();
        let start = datt.cell(at + s);
        proof {
            assert(slice(datt.cells(), at as int, g.n as int)[s as int] == datt.cells()[at + s]);
            assert(slice(o.datt, at as int, g.n as int)[s as int] == o.datt[at + s]);
        }
        let mut shares: Vec<E> = Vec::new();
        while shares.len() < g.dh
            invariant
                shares.len() <= g.dh,
                share@.len() == g.dh,
                s < weights@.len(),
                forall|j: int|
                    0 <= j < shares.len() ==> #[trigger] shares@[j] == weights@[s as int].times_spec(
                        share@[j],
                    ),
            decreases g.dh - shares.len(),
        {
            let j: usize = shares.len();
            shares.push(weights[s].times(&share[j]));
        }
        assert(shares@ =~= o.value_share(b as int, h as int, t as int, s as int));
        dx.accumulate(place, &shares);
        r.push(sum(start, &multiply(&v, share)));
    }
    assert(r@ =~= Seq::new((t + 1) as nat, |s: int| o.dweight(b as int, h as int, t as int, s)));
    r
}

/// Computes the gradient of the scores of one head at one position.
fn backward_scores<E: Scalar>(
    dpreatt: &Tensor<E>,
    dweights: &Vec<E>,
    weights: &Vec<E>,
    g: &Heads,
    batch: usize,
    b: usize,
    t: usize,
    h: usize,
    Ghost(o): Ghost<Operands<E>>,
) -> (r: Vec<E>)
    requires
        o.g == *g,
        dpreatt.is_real(),
        dpreatt.cells().len() == batch * g.nh * g.n * g.n,
        o.dpreatt.len() == batch * g.nh * g.n * g.n,
        in_walk(*g, batch as int, b as int, t as int, h as int),
        weights@.len() == t + 1,
        forall|s: int|
            0 <= s <= t ==> #[trigger] weights@[s] == o.weight(b as int, h as int, t as int, s),
        dweights@ == Seq::new(
            (t + 1) as nat,
            |s: int| o.dweight(b as int, h as int, t as int, s),
        ),
        slice(dpreatt.cells(), g.weights(b as int, h as int, t as int), g.n as int) == slice(
            o.dpreatt,
            g.weights(b as int, h as int, t as int),
            g.n as int,
        ),
    ensures
        r@ == Seq::new((t + 1) as nat, |s: int| o.dscore(b as int, h as int, t as int, s)),
{
    let at = g.weights_place(batch, b, h, t, dpreatt);
    proof {
        g.lemma_weights(b as int, h as int, t as int, batch as int);
    }
    let mut r: Vec<E> = Vec::new();
    while r.len() <= t
        invariant
            o.g == *g,
            dpreatt.is_real(),
            at == g.weights(b as int, h as int, t as int),
            at + g.n <= dpreatt.cells().len(),
            at + g.n <= o.dpreatt.len(),
            t < g.n,
            weights@.len() == t + 1,
            forall|s: int|
                0 <= s <= t ==> #[trigger] weights@[s] == o.weight(
                    b as int,
                    h as int,
                    t as int,
                    s,
                ),
            dweights@ == Seq::new(
                (t + 1) as nat,
                |s: int| o.dweight(b as int, h as int, t as int, s),
            ),
            slice(dpreatt.cells(), at as int, g.n as int) == slice(
                o.dpreatt,
                at as int,
                g.n as int,
            ),
            r.len() <= t + 1,
            forall|s: int|
                0 <= s < r.len() ==> #[trigger] r@[s] == o.dscore(
                    b as int,
                    h as int,
                    t as int,
                    s,
                ),
        decreases t + 1 - r.len(),
    {
        let s: usize = r.len();
        let _len = dpreatt.real_len();
        let start = dpreatt.cell(at + s);
        proof {
            assert(slice(dpreatt.cells(), at as int, g.n as int)[s as int] == dpreatt.cells()[at
                + s]);
            assert(slice(o.dpreatt, at as int, g.n as int)[s as int] == o.dpreatt[at + s]);
        }
        let mut terms: Vec<E> = Vec::new();
        while terms.len() <= t
            invariant
                terms.len() <= t + 1,
                s <= t,
                weights@.len() == t + 1,
                dweights@.len() == t + 1,
                forall|u: int|
                    0 <= u <= t ==> #[trigger] weights@[u] == o.weight(
                        b as int,
                        h as int,
                        t as int,
                        u,
                    ),
                forall|u: int|
                    0 <= u <= t ==> #[trigger] dweights@[u] == o.dweight(
                        b as int,
                        h as int,
                        t as int,
                        u,
                    ),
                forall|u: int|
                    0 <= u < terms.len() ==> #[trigger] terms@[u] == o.slope(
                        b as int,
                        h as int,
                        t as int,
                        u,
                        s as int,
                    ).times_spec(o.dweight(b as int, h as int, t as int, u)),
            decreases t + 1 - terms.len(),
        {
            let u: usize = terms.len();
            let indicator = if u == s {
                E::one()
            } else {
                E::zero()
            };
            let slope = weights[u].times(&indicator.minus(&weights[s]));
            terms.push(slope.times(&dweights[u]));
        }
        assert(terms@ =~= Seq::new(
            (t + 1) as nat,
            |u: int|
                o.slope(b as int, h as int, t as int, u, s as int).times_spec(
                    o.dweight(b as int, h as int, t as int, u),
                ),
        ));
        r.push(sum(start, &terms));
    }
    assert(r@ =~= Seq::new((t + 1) as nat, |s: int| o.dscore(b as int, h as int, t as int, s)));
    r
}

/// Adds the query and key shares of one head at one position to `dx`.
fn backward_keys<E: Scalar>(
    dx: &mut Tensor<E>,
    x: &Tensor<E>,
    dscores: &Vec<E>,
    g: &Heads,
    batch: usize,
    b: usize,
    t: usize,
    h: usize,
    Ghost(o): Ghost<Operands<E>>,
)
    requires
        g.wf(),
        o.g == *g,
        input_fits(x, *g, batch as int),
        input_fits(old(dx), *g, batch as int),
        o.x == x.cells(),
        in_walk(*g, batch as int, b as int, t as int, h as int),
        dscores@ == Seq::new((t + 1) as nat, |s: int| o.dscore(b as int, h as int, t as int, s)),
    ensures
        old(dx).same_form(final(dx)),
        final(dx).cells().len() == old(dx).cells().len(),
        final(dx).cells() == o.with_keys(old(dx).cells(), b as int, h as int, t as int, t + 1),
{
    let ghost dx0 = *dx;
    let query_at = g.query_place(x, batch, b, t, h);
    let q = x.segment(query_at, g.dh);
    let factor = E::count(g.dh).rsqrt();
    let mut s: usize = 0;
    while s <= t
        invariant
            s <= t + 1,
            g.wf(),
            o.g == *g,
            input_fits(x, *g, batch as int),
            input_fits(dx, *g, batch as int),
            dx0.same_form(dx),
            o.x == x.cells(),
            in_walk(*g, batch as int, b as int, t as int, h as int),
            dscores@ == Seq::new(
                (t + 1) as nat,
                |s: int| o.dscore(b as int, h as int, t as int, s),
            ),
            query_at == g.dense_query(b as int, t as int, h as int),
            query_at + g.dh <= x.cells().len(),
            q@ == slice(o.x, query_at as int, g.dh as int),
            factor == scaling::<E>(*g),
            dx.cells() == o.with_keys(dx0.cells(), b as int, h as int, t as int, s as int),
        decreases t + 1 - s,
    {
        let key_at = g.key_place(x, batch, b, s, h);
        let k = x.segment(key_at, g.dh);
        let query_share = scale(&scale(&k, &dscores[s]), &factor);
        let key_share = scale(&scale(&q, &dscores[s]), &factor);
        assert(query_share@ == o.query_share(b as int, h as int, t as int, s as int));
        assert(key_share@ == o.key_share(b as int, h as int, t as int, s as int));
        dx.accumulate(query_at, &query_share);
        dx.accumulate(key_at, &key_share);
        s += 1;
    }
}

/// Where the walk has come to `(b, t, h)`: the gradients of weights and scores
/// that come earlier are done, and the rest is as it was.
spec fn weighed_so_far<E: Scalar>(
    o: Operands<E>,
    datt: Seq<E>,
    dpreatt: Seq<E>,
    batch: int,
    b: int,
    t: int,
    h: int,
) -> bool {
    let g = o.g;
    let n = g.n as int;
    &&& datt.len() == o.datt.len() == batch * g.nh * g.n * g.n
    &&& dpreatt.len() == o.dpreatt.len() == batch * g.nh * g.n * g.n
    &&& forall|b2: int, t2: int, h2: int|
        in_walk(g, batch, b2, t2, h2) && earlier(b2, t2, h2, b, t, h) ==> #[trigger] o.weighed(
            datt,
            dpreatt,
            b2,
            t2,
            h2,
        )
    &&& forall|b2: int, t2: int, h2: int|
        in_walk(g, batch, b2, t2, h2) && !earlier(b2, t2, h2, b, t, h) ==> {
            let at = #[trigger] g.weights(b2, h2, t2);
            &&& slice(datt, at, n) == slice(o.datt, at, n)
            &&& slice(dpreatt, at, n) == slice(o.dpreatt, at, n)
        }
}

/// A row whose first elements are overwritten: the new ones, then the old rest.
proof fn lemma_front<E>(cells: Seq<E>, before: Seq<E>, at: int, n: int, front: Seq<E>)
    requires
        0 <= at,
        at + n <= cells.len(),
        cells.len() == before.len(),
        front.len() <= n,
        slice(cells, at, n) == slice(before, at, n),
    ensures
        slice(overwritten(cells, at, front), at, n) == front + slice(
            before,
            at + front.len(),
            n - front.len(),
        ),
{
    let kept = front + slice(before, at + front.len(), n - front.len());
    let after = slice(overwritten(cells, at, front), at, n);
    assert forall|i: int| 0 <= i < n implies #[trigger] after[i] == kept[i] by {
        assert(slice(cells, at, n)[i] == slice(before, at, n)[i]);
        if i >= front.len() {
            let rest = slice(before, at + front.len(), n - front.len());
            assert(kept[i] == rest[i - front.len()]);
            assert(rest[i - front.len()] == before[at + i]);
            assert(after[i] == cells[at + i]);
            assert(slice(cells, at, n)[i] == cells[at + i]);
            assert(slice(before, at, n)[i] == before[at + i]);
        } else {
            assert(after[i] == front[i]);
        }
    }
    assert(after =~= kept);
}

/// One head at one position carries the walk one step on.
proof fn lemma_weighed_step<E: Scalar>(
    o: Operands<E>,
    datt: Seq<E>,
    dpreatt: Seq<E>,
    batch: int,
    b: int,
    t: int,
    h: int,
)
    requires
        in_walk(o.g, batch, b, t, h),
        weighed_so_far(o, datt, dpreatt, batch, b, t, h),
    ensures
        weighed_so_far(
            o,
            overwritten(
                datt,
                o.g.weights(b, h, t),
                Seq::new((t + 1) as nat, |s: int| o.dweight(b, h, t, s)),
            ),
            overwritten(
                dpreatt,
                o.g.weights(b, h, t),
                Seq::new((t + 1) as nat, |s: int| o.dscore(b, h, t, s)),
            ),
            batch,
            b,
            t,
            h + 1,
        ),
{
    let g = o.g;
    let n = g.n as int;
    let at = g.weights(b, h, t);
    let dweights = Seq::new((t + 1) as nat, |s: int| o.dweight(b, h, t, s));
    let dscores = Seq::new((t + 1) as nat, |s: int| o.dscore(b, h, t, s));
    let datt2 = overwritten(datt, at, dweights);
    let dpreatt2 = overwritten(dpreatt, at, dscores);
    g.lemma_weights(b, h, t, batch);
    lemma_front(datt, o.datt, at, n, dweights);
    lemma_front(dpreatt, o.dpreatt, at, n, dscores);
    assert(o.weighed(datt2, dpreatt2, b, t, h));
    assert forall|b2: int, t2: int, h2: int|
        in_walk(g, batch, b2, t2, h2) && earlier(b2, t2, h2, b, t, h + 1) implies #[trigger] o.weighed(
        datt2,
        dpreatt2,
        b2,
        t2,
        h2,
    ) by {
        if b2 == b && t2 == t && h2 == h {
        } else {
            assert(o.weighed(datt, dpreatt, b2, t2, h2));
            g.lemma_weights(b2, h2, t2, batch);
            g.lemma_weights_apart(b, h, t, b2, h2, t2, batch);
            let at2 = g.weights(b2, h2, t2);
            lemma_overwritten_elsewhere(datt, at, dweights, at2, at2 + n);
            lemma_overwritten_elsewhere(dpreatt, at, dscores, at2, at2 + n);
        }
    }
    assert forall|b2: int, t2: int, h2: int|
        in_walk(g, batch, b2, t2, h2) && !earlier(b2, t2, h2, b, t, h + 1) implies {
        let at2 = #[trigger] g.weights(b2, h2, t2);
        &&& slice(datt2, at2, n) == slice(o.datt, at2, n)
        &&& slice(dpreatt2, at2, n) == slice(o.dpreatt, at2, n)
    } by {
        g.lemma_weights(b2, h2, t2, batch);
        g.lemma_weights_apart(b, h, t, b2, h2, t2, batch);
        let at2 = g.weights(b2, h2, t2);
        lemma_overwritten_elsewhere(datt, at, dweights, at2, at2 + n);
        lemma_overwritten_elsewhere(dpreatt, at, dscores, at2, at2 + n);
    }
}

/// The operands of these tensors.
pub open spec fn operands_of<E: Scalar>(
    dpreatt: &Tensor<E>,
    datt: &Tensor<E>,
    dy: &Tensor<E>,
    x: &Tensor<E>,
    att: &Tensor<E>,
) -> Operands<E> {
    Operands {
        g: heads_of(att.dims(), x.dims()),
        x: x.cells(),
        dy: dy.cells(),
        att: att.cells(),
        datt: datt.cells(),
        dpreatt: dpreatt.cells(),
    }
}

/// Goes back through attention: adds to the gradients of weights (`datt`),
/// scores (`dpreatt`), and queries, keys and values (`dx`) what the gradient of
/// the output (`dy`) asks for.
pub fn backward<E: Scalar>(
    dx: &mut Tensor<E>,
    dpreatt: &mut Tensor<E>,
    datt: &mut Tensor<E>,
    dy: &Tensor<E>,
    x: &Tensor<E>,
    att: &Tensor<E>,
)
    requires
        old(dx).holds_reals(),
        old(dpreatt).holds_reals(),
        old(datt).holds_reals(),
        dy.holds_reals(),
        x.holds_reals(),
        att.holds_reals(),
        shapes_fit(dy.dims(), old(dpreatt).dims(), old(datt).dims(), x.dims()),
        att.dims() == old(datt).dims(),
        old(dx).dims() == x.dims(),
        att.dims()[1] > 0,
    ensures
        old(dx).same_form(final(dx)),
        old(dpreatt).same_form(final(dpreatt)),
        old(datt).same_form(final(datt)),
        ({
            let o = operands_of(old(dpreatt), old(datt), dy, x, att);
            &&& final(dx).cells() == o.with_sequences(old(dx).cells(), x.dims()[0] as int)
            &&& forall|b: int, t: int, h: int|
                in_walk(o.g, x.dims()[0] as int, b, t, h) ==> #[trigger] o.weighed(
                    final(datt).cells(),
                    final(dpreatt).cells(),
                    b,
                    t,
                    h,
                )
        }),
{
    let batch = x.dim(0);
    let g = Heads::new(x.dim(1), att.dim(1), x.dim(2));
    let ghost o = operands_of(dpreatt, datt, dy, x, att);
    let ghost (xb, pb, ab) = (*dx, *dpreatt, *datt);
    proof {
        lemma_size3(dy.dims());
        lemma_size3(x.dims());
        lemma_size4(dpreatt.dims());
        lemma_size4(datt.dims());
        lemma_rows_bound(batch as int, g.n as int, g.nh as int);
    }
    let _len = att.real_len();
    let mut b: usize = 0;
    while b < batch
        invariant
            b <= batch,
            o.g == g,
            operands_fit(o, g, dx, dy, x, att, batch as int),
            xb.same_form(dx),
            pb.same_form(dpreatt),
            ab.same_form(datt),
            pb.is_real() && ab.is_real(),
            weighed_so_far(o, datt.cells(), dpreatt.cells(), batch as int, b as int, 0, 0),
            dx.cells() == o.with_sequences(xb.cells(), b as int),
        decreases batch - b,
    {
        let mut t: usize = 0;
        while t < g.n
            invariant
                b < batch,
                t <= g.n,
                o.g == g,
                operands_fit(o, g, dx, dy, x, att, batch as int),
                xb.same_form(dx),
                pb.same_form(dpreatt),
                ab.same_form(datt),
                pb.is_real() && ab.is_real(),
                weighed_so_far(
                    o,
                    datt.cells(),
                    dpreatt.cells(),
                    batch as int,
                    b as int,
                    t as int,
                    0,
                ),
                dx.cells() == o.with_positions(
                    o.with_sequences(xb.cells(), b as int),
                    b as int,
                    t as int,
                ),
            decreases g.n - t,
        {
            let mut h: usize = 0;
            while h < g.nh
                invariant
                    b < batch,
                    t < g.n,
                    h <= g.nh,
                    o.g == g,
                    operands_fit(o, g, dx, dy, x, att, batch as int),
                    xb.same_form(dx),
                    pb.same_form(dpreatt),
                    ab.same_form(datt),
                    pb.is_real() && ab.is_real(),
                    weighed_so_far(
                        o,
                        datt.cells(),
                        dpreatt.cells(),
                        batch as int,
                        b as int,
                        t as int,
                        h as int,
                    ),
                    dx.cells() == o.with_heads(
                        o.with_positions(
                            o.with_sequences(xb.cells(), b as int),
                            b as int,
                            t as int,
                        ),
                        b as int,
                        t as int,
                        h as int,
                    ),
                decreases g.nh - h,
            {
                proof {
                    g.lemma_out(b as int, t as int, h as int, batch as int);
                    g.lemma_weights(b as int, h as int, t as int, batch as int);
                    lemma_weighed_step(
                        o,
                        datt.cells(),
                        dpreatt.cells(),
                        batch as int,
                        b as int,
                        t as int,
                        h as int,
                    );
                    assert(!earlier(b as int, t as int, h as int, b as int, t as int, h as int));
                }
                let share = dy.segment(g.out_place(batch, b, t, h, dy), g.dh);
                let at = g.weights_place(batch, b, h, t, att);
                let weights = att.segment(at, t + 1);
                assert forall|s: int| 0 <= s <= t implies #[trigger] weights@[s] == o.weight(
                    b as int,
                    h as int,
                    t as int,
                    s,
                ) by {}
                let dweights = backward_values(
                    dx,
                    datt,
                    x,
                    &share,
                    &weights,
                    &g,
                    batch,
                    b,
                    t,
                    h,
                    Ghost(o),
                );
                let dscores = backward_scores(
                    dpreatt,
                    &dweights,
                    &weights,
                    &g,
                    batch,
                    b,
                    t,
                    h,
                    Ghost(o),
                );
                backward_keys(dx, x, &dscores, &g, batch, b, t, h, Ghost(o));
                datt.overwrite(at, &dweights);
                dpreatt.overwrite(at, &dscores);
                h += 1;
            }
            t += 1;
        }
        b += 1;
    }
}

/// Whether the operands have the sizes that the heads ask for.
spec fn operands_fit<E: Scalar>(
    o: Operands<E>,
    g: Heads,
    dx: &Tensor<E>,
    dy: &Tensor<E>,
    x: &Tensor<E>,
    att: &Tensor<E>,
    batch: int,
) -> bool {
    &&& g.wf()
    &&& input_fits(x, g, batch)
    &&& input_fits(dx, g, batch)
    &&& dy.is_real() && att.is_real()
    &&& att.cells().len() == batch * g.nh * g.n * g.n
    &&& dy.cells().len() == batch * g.n * g.d
    &&& o.x == x.cells()
    &&& o.dy == dy.cells()
    &&& o.att == att.cells()
}

} // verus!
