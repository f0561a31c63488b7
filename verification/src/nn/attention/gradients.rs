//! What the gradients of queries, keys and values come to.
use crate::nn::attention::backward::Operands;
use crate::nn::attention::forward::{in_walk, slice, Heads};
use crate::scalar::Scalar;
use crate::vector::{
    accumulated, law_summed_in_parts, lemma_place_bound, lemma_places_apart, lemma_rows_apart,
    lemma_summed_none, lemma_summed_push, summed,
};
use vstd::prelude::*;

verus! {

/// A head of a part of an input row.
pub ghost struct Slot {
    /// The sequence.
    pub b: int,
    /// The position.
    pub t: int,
    /// The part: query, key or value.
    pub p: int,
    /// The head.
    pub h: int,
}

impl Slot {
    /// Whether there is such a slot.
    pub open spec fn wf(self, g: Heads, batch: int) -> bool {
        in_walk(g, batch, self.b, self.t, self.h) && 0 <= self.p < 3
    }

    /// Where it starts.
    pub open spec fn start(self, g: Heads) -> int {
        g.part(self.b, self.t, self.p, self.h)
    }

    /// What it holds.
    pub open spec fn held<E>(self, cells: Seq<E>, g: Heads) -> Seq<E> {
        slice(cells, self.start(g), g.dh as int)
    }
}

/// Adding to one slot leaves the others alone.
proof fn lemma_slot_step<E: Scalar>(
    g: Heads,
    batch: int,
    cells: Seq<E>,
    into: Slot,
    values: Seq<E>,
    slot: Slot,
)
    requires
        g.wf(),
        cells.len() == batch * g.n * g.d3,
        into.wf(g, batch),
        slot.wf(g, batch),
        values.len() == g.dh,
    ensures
        accumulated(cells, into.start(g), values).len() == cells.len(),
        slot.held(accumulated(cells, into.start(g), values), g) == if into == slot {
            accumulated(slot.held(cells, g), 0, values)
        } else {
            slot.held(cells, g)
        },
{
    let (n, d3, d, dh) = (g.n as int, g.d3 as int, g.d as int, g.dh as int);
    let after = accumulated(cells, into.start(g), values);
    g.lemma_part(into.b, into.t, into.p, into.h, batch);
    g.lemma_part(slot.b, slot.t, slot.p, slot.h, batch);
    let (r1, r2) = (into.b * n + into.t, slot.b * n + slot.t);
    lemma_place_bound(into.b, into.t, batch, n);
    lemma_place_bound(slot.b, slot.t, batch, n);
    if into == slot {
        assert(slot.held(after, g) =~= accumulated(slot.held(cells, g), 0, values));
    } else {
        if r1 < r2 {
            lemma_rows_apart(r1, r2, d3);
        } else if r2 < r1 {
            lemma_rows_apart(r2, r1, d3);
        } else {
            lemma_places_apart(into.b, into.t, slot.b, slot.t, n);
            if into.p < slot.p {
                lemma_rows_apart(into.p, slot.p, d);
            } else if slot.p < into.p {
                lemma_rows_apart(slot.p, into.p, d);
            } else if into.h < slot.h {
                lemma_rows_apart(into.h, slot.h, dh);
            } else {
                lemma_rows_apart(slot.h, into.h, dh);
            }
        }
        assert(slot.held(after, g) =~= slot.held(cells, g));
    }
}

impl Heads {
    /// Where a row is three parts and nothing more, the parts follow each other
    /// without a gap.
    pub proof fn law_dense_rows(&self, b: int, t: int, h: int)
        requires
            self.d3 == 3 * self.d,
        ensures
            self.dense_query(b, t, h) == self.part(b, t, 0, h),
            self.dense_key(b, t, h) == self.part(b, t, 1, h),
    {
        let (n, d) = (self.n as int, self.d as int);
        assert(b * n * (3 * d) + t * 3 * d == (b * n + t) * (3 * d)) by (nonlinear_arith);
        assert((t * 3 + 1) * d == t * 3 * d + d) by (nonlinear_arith);
    }
}

impl<E: Scalar> Operands<E> {
    /// Whether the input has the length that the heads ask for, and its rows are
    /// three parts and nothing more.
    pub open spec fn dense(self, batch: int) -> bool {
        let g = self.g;
        &&& g.wf()
        &&& g.d3 == 3 * g.d
        &&& self.x.len() == batch * g.n * g.d3
    }

    /// What head `slot.h` at position `t` of the sequence of the slot adds to it,
    /// in this order.
    pub open spec fn shares_at(self, slot: Slot, t: int) -> Seq<Seq<E>> {
        if slot.p == 0 {
            if t == slot.t {
                Seq::new((t + 1) as nat, |s: int| self.query_share(slot.b, slot.h, t, s))
            } else {
                Seq::empty()
            }
        } else if t < slot.t {
            Seq::empty()
        } else if slot.p == 1 {
            seq![self.key_share(slot.b, slot.h, t, slot.t)]
        } else {
            seq![self.value_share(slot.b, slot.h, t, slot.t)]
        }
    }

    /// What the first `m` positions of its sequence add to a slot.
    pub open spec fn shares(self, slot: Slot, m: int) -> Seq<Seq<E>>
        decreases m,
    {
        if m <= 0 {
            Seq::empty()
        } else {
            self.shares(slot, m - 1) + self.shares_at(slot, m - 1)
        }
    }

    /// All shares have the width of a head.
    proof fn lemma_share_widths(self, batch: int, b: int, h: int, t: int, s: int)
        requires
            self.dense(batch),
            in_walk(self.g, batch, b, t, h),
            0 <= s < self.g.n,
        ensures
            self.value_share(b, h, t, s).len() == self.g.dh,
            self.query_share(b, h, t, s).len() == self.g.dh,
            self.key_share(b, h, t, s).len() == self.g.dh,
    {
        self.g.law_dense_rows(b, s, h);
        self.g.law_dense_rows(b, t, h);
        self.g.lemma_part(b, s, 1, h, batch);
        self.g.lemma_part(b, t, 0, h, batch);
    }

    /// The value shares of the first `m` positions.
    proof fn lemma_with_values(
        self,
        batch: int,
        dx: Seq<E>,
        b: int,
        h: int,
        t: int,
        m: int,
        slot: Slot,
    )
        requires
            self.dense(batch),
            dx.len() == batch * self.g.n * self.g.d3,
            in_walk(self.g, batch, b, t, h),
            0 <= m <= t + 1,
            slot.wf(self.g, batch),
        ensures
            self.with_values(dx, b, h, t, m).len() == dx.len(),
            slot.held(self.with_values(dx, b, h, t, m), self.g) == if slot.p == 2 && slot.b == b
                && slot.h == h && slot.t < m {
                accumulated(slot.held(dx, self.g), 0, self.value_share(b, h, t, slot.t))
            } else {
                slot.held(dx, self.g)
            },
        decreases m,
    {
        if m > 0 {
            self.lemma_with_values(batch, dx, b, h, t, m - 1, slot);
            self.lemma_share_widths(batch, b, h, t, m - 1);
            lemma_slot_step(
                self.g,
                batch,
                self.with_values(dx, b, h, t, m - 1),
                Slot { b, t: m - 1, p: 2, h },
                self.value_share(b, h, t, m - 1),
                slot,
            );
        }
    }

    /// The query and key shares of the first `m` positions.
    proof fn lemma_with_keys(
        self,
        batch: int,
        dx: Seq<E>,
        b: int,
        h: int,
        t: int,
        m: int,
        slot: Slot,
    )
        requires
            self.dense(batch),
            dx.len() == batch * self.g.n * self.g.d3,
            in_walk(self.g, batch, b, t, h),
            0 <= m <= t + 1,
            slot.wf(self.g, batch),
        ensures
            self.with_keys(dx, b, h, t, m).len() == dx.len(),
            slot.held(self.with_keys(dx, b, h, t, m), self.g) == if slot.b == b && slot.h == h
                && slot.p == 1 && slot.t < m {
                accumulated(slot.held(dx, self.g), 0, self.key_share(b, h, t, slot.t))
            } else if slot.b == b && slot.h == h && slot.p == 0 && slot.t == t {
                summed(
                    slot.held(dx, self.g),
                    Seq::new(m as nat, |s: int| self.query_share(b, h, t, s)),
                )
            } else {
                slot.held(dx, self.g)
            },
        decreases m,
    {
        let g = self.g;
        if m > 0 {
            let s = m - 1;
            let before = self.with_keys(dx, b, h, t, s);
            self.lemma_with_keys(batch, dx, b, h, t, s, slot);
            self.lemma_share_widths(batch, b, h, t, s);
            g.law_dense_rows(b, t, h);
            g.law_dense_rows(b, s, h);
            let queries = Slot { b, t, p: 0, h };
            lemma_slot_step(g, batch, before, queries, self.query_share(b, h, t, s), slot);
            lemma_slot_step(
                g,
                batch,
                accumulated(before, g.dense_query(b, t, h), self.query_share(b, h, t, s)),
                Slot { b, t: s, p: 1, h },
                self.key_share(b, h, t, s),
                slot,
            );
            if slot == queries {
                g.lemma_part(b, t, 0, h, batch);
                let fewer = Seq::new(s as nat, |s: int| self.query_share(b, h, t, s));
                lemma_summed_push(slot.held(dx, g), fewer, self.query_share(b, h, t, s));
                assert(fewer.push(self.query_share(b, h, t, s)) =~= Seq::new(
                    m as nat,
                    |s: int| self.query_share(b, h, t, s),
                ));
            }
        } else {
            assert(Seq::new(0, |s: int| self.query_share(b, h, t, s)) =~= Seq::empty());
            lemma_summed_none(slot.held(dx, g));
        }
    }

    /// All that one head at one position adds.
    proof fn lemma_with_head(self, batch: int, dx: Seq<E>, b: int, t: int, h: int, slot: Slot)
        requires
            self.dense(batch),
            dx.len() == batch * self.g.n * self.g.d3,
            in_walk(self.g, batch, b, t, h),
            slot.wf(self.g, batch),
        ensures
            self.with_head(dx, b, t, h).len() == dx.len(),
            slot.held(self.with_head(dx, b, t, h), self.g) == if slot.b == b && slot.h == h {
                summed(slot.held(dx, self.g), self.shares_at(slot, t))
            } else {
                slot.held(dx, self.g)
            },
    {
        let g = self.g;
        let valued = self.with_values(dx, b, h, t, t + 1);
        self.lemma_with_values(batch, dx, b, h, t, t + 1, slot);
        self.lemma_with_keys(batch, valued, b, h, t, t + 1, slot);
        self.lemma_share_widths(batch, b, h, t, slot.t);
        g.lemma_part(slot.b, slot.t, slot.p, slot.h, batch);
        let start = slot.held(dx, g);
        lemma_summed_none(start);
        let (ks, vs) = (self.key_share(b, h, t, slot.t), self.value_share(b, h, t, slot.t));
        lemma_summed_push(start, Seq::empty(), ks);
        lemma_summed_push(start, Seq::empty(), vs);
        assert(Seq::empty().push(ks) =~= seq![ks]);
        assert(Seq::empty().push(vs) =~= seq![vs]);
    }

    /// All that the first `m` heads at one position add.
    proof fn lemma_with_heads(self, batch: int, dx: Seq<E>, b: int, t: int, m: int, slot: Slot)
        requires
            self.dense(batch),
            dx.len() == batch * self.g.n * self.g.d3,
            0 <= b < batch,
            0 <= t < self.g.n,
            0 <= m <= self.g.nh,
            slot.wf(self.g, batch),
        ensures
            self.with_heads(dx, b, t, m).len() == dx.len(),
            slot.held(self.with_heads(dx, b, t, m), self.g) == if slot.b == b && slot.h < m {
                summed(slot.held(dx, self.g), self.shares_at(slot, t))
            } else {
                slot.held(dx, self.g)
            },
        decreases m,
    {
        if m > 0 {
            self.lemma_with_heads(batch, dx, b, t, m - 1, slot);
            self.lemma_with_head(batch, self.with_heads(dx, b, t, m - 1), b, t, m - 1, slot);
        }
    }

    /// Shares at one position have the width of a head.
    proof fn lemma_shares_at_widths(self, batch: int, slot: Slot, t: int)
        requires
            self.dense(batch),
            0 <= t < self.g.n,
            slot.wf(self.g, batch),
        ensures
            forall|i: int|
                0 <= i < self.shares_at(slot, t).len() ==> (#[trigger] self.shares_at(
                    slot,
                    t,
                )[i]).len() == self.g.dh,
    {
        assert forall|i: int| 0 <= i < self.shares_at(slot, t).len() implies (
        #[trigger] self.shares_at(slot, t)[i]).len() == self.g.dh by {
            if slot.p == 0 {
                self.lemma_share_widths(batch, slot.b, slot.h, t, i);
            } else {
                self.lemma_share_widths(batch, slot.b, slot.h, t, slot.t);
            }
        }
    }

    /// All that the first `m` positions of a sequence add.
    proof fn lemma_with_positions(self, batch: int, dx: Seq<E>, b: int, m: int, slot: Slot)
        requires
            self.dense(batch),
            dx.len() == batch * self.g.n * self.g.d3,
            0 <= b < batch,
            0 <= m <= self.g.n,
            slot.wf(self.g, batch),
        ensures
            self.with_positions(dx, b, m).len() == dx.len(),
            forall|i: int|
                0 <= i < self.shares(slot, m).len() ==> (#[trigger] self.shares(slot, m)[i]).len()
                    == self.g.dh,
            slot.held(self.with_positions(dx, b, m), self.g) == if slot.b == b {
                summed(slot.held(dx, self.g), self.shares(slot, m))
            } else {
                slot.held(dx, self.g)
            },
        decreases m,
    {
        let start = slot.held(dx, self.g);
        self.g.lemma_part(slot.b, slot.t, slot.p, slot.h, batch);
        if m > 0 {
            let t = m - 1;
            let before = self.with_positions(dx, b, t);
            self.lemma_with_positions(batch, dx, b, t, slot);
            self.lemma_with_heads(batch, before, b, t, self.g.nh as int, slot);
            self.lemma_shares_at_widths(batch, slot, t);
            law_summed_in_parts(start, self.shares(slot, t), self.shares_at(slot, t));
            assert forall|i: int| 0 <= i < self.shares(slot, m).len() implies (
            #[trigger] self.shares(slot, m)[i]).len() == self.g.dh by {
                let earlier = self.shares(slot, t);
                if i < earlier.len() {
                    assert(self.shares(slot, m)[i] == earlier[i]);
                } else {
                    assert(self.shares(slot, m)[i] == self.shares_at(slot, t)[i - earlier.len()]);
                }
            }
        } else {
            lemma_summed_none(start);
        }
    }

    /// All that the first `m` sequences add.
    proof fn lemma_with_sequences(self, batch: int, dx: Seq<E>, m: int, slot: Slot)
        requires
            self.dense(batch),
            dx.len() == batch * self.g.n * self.g.d3,
            0 <= m <= batch,
            slot.wf(self.g, batch),
        ensures
            self.with_sequences(dx, m).len() == dx.len(),
            slot.held(self.with_sequences(dx, m), self.g) == if slot.b < m {
                summed(slot.held(dx, self.g), self.shares(slot, self.g.n as int))
            } else {
                slot.held(dx, self.g)
            },
        decreases m,
    {
        if m > 0 {
            let before = self.with_sequences(dx, m - 1);
            self.lemma_with_sequences(batch, dx, m - 1, slot);
            self.lemma_with_positions(batch, before, m - 1, self.g.n as int, slot);
        }
    }

    /// The gradient of a query: what it was, and one share for every position up
    /// to its own.
    pub proof fn law_query_gradient(self, batch: int, dx: Seq<E>, b: int, h: int, t: int)
        requires
            self.dense(batch),
            dx.len() == batch * self.g.n * self.g.d3,
            in_walk(self.g, batch, b, t, h),
        ensures
            slice(
                self.with_sequences(dx, batch),
                self.g.part(b, t, 0, h),
                self.g.dh as int,
            ) == summed(
                slice(dx, self.g.part(b, t, 0, h), self.g.dh as int),
                Seq::new((t + 1) as nat, |s: int| self.query_share(b, h, t, s)),
            ),
    {
        let slot = Slot { b, t, p: 0, h };
        self.lemma_with_sequences(batch, dx, batch, slot);
        self.lemma_query_shares(slot, self.g.n as int);
    }

    /// The gradient of a key: what it was, and one share for every position from
    /// its own on.
    pub proof fn law_key_gradient(self, batch: int, dx: Seq<E>, b: int, h: int, s: int)
        requires
            self.dense(batch),
            dx.len() == batch * self.g.n * self.g.d3,
            in_walk(self.g, batch, b, s, h),
        ensures
            slice(
                self.with_sequences(dx, batch),
                self.g.part(b, s, 1, h),
                self.g.dh as int,
            ) == summed(
                slice(dx, self.g.part(b, s, 1, h), self.g.dh as int),
                Seq::new((self.g.n - s) as nat, |i: int| self.key_share(b, h, s + i, s)),
            ),
    {
        let slot = Slot { b, t: s, p: 1, h };
        self.lemma_with_sequences(batch, dx, batch, slot);
        self.lemma_later_shares(slot, self.g.n as int);
        assert(self.shares(slot, self.g.n as int) =~= Seq::new(
            (self.g.n - s) as nat,
            |i: int| self.key_share(b, h, s + i, s),
        ));
    }

    /// The gradient of a value: what it was, and one share for every position
    /// from its own on.
    pub proof fn law_value_gradient(self, batch: int, dx: Seq<E>, b: int, h: int, s: int)
        requires
            self.dense(batch),
            dx.len() == batch * self.g.n * self.g.d3,
            in_walk(self.g, batch, b, s, h),
        ensures
            slice(
                self.with_sequences(dx, batch),
                self.g.part(b, s, 2, h),
                self.g.dh as int,
            ) == summed(
                slice(dx, self.g.part(b, s, 2, h), self.g.dh as int),
                Seq::new((self.g.n - s) as nat, |i: int| self.value_share(b, h, s + i, s)),
            ),
    {
        let slot = Slot { b, t: s, p: 2, h };
        self.lemma_with_sequences(batch, dx, batch, slot);
        self.lemma_later_shares(slot, self.g.n as int);
        assert(self.shares(slot, self.g.n as int) =~= Seq::new(
            (self.g.n - s) as nat,
            |i: int| self.value_share(b, h, s + i, s),
        ));
    }

    /// The shares of a query.
    proof fn lemma_query_shares(self, slot: Slot, m: int)
        requires
            slot.p == 0,
            0 <= slot.t,
            0 <= m,
        ensures
            self.shares(slot, m) == if slot.t < m {
                Seq::new(
                    (slot.t + 1) as nat,
                    |s: int| self.query_share(slot.b, slot.h, slot.t, s),
                )
            } else {
                Seq::empty()
            },
        decreases m,
    {
        if m > 0 {
            self.lemma_query_shares(slot, m - 1);
            let all = Seq::new(
                (slot.t + 1) as nat,
                |s: int| self.query_share(slot.b, slot.h, slot.t, s),
            );
            assert(all + Seq::empty() =~= all);
            assert(Seq::<Seq<E>>::empty() + all =~= all);
            assert(Seq::<Seq<E>>::empty() + Seq::empty() =~= Seq::empty());
        }
    }

    /// The shares of a key or a value.
    proof fn lemma_later_shares(self, slot: Slot, m: int)
        requires
            slot.p == 1 || slot.p == 2,
            0 <= slot.t,
            0 <= m,
        ensures
            self.shares(slot, m).len() == if slot.t < m {
                m - slot.t
            } else {
                0
            },
            forall|i: int|
                0 <= i < self.shares(slot, m).len() ==> #[trigger] self.shares(slot, m)[i]
                    == if slot.p == 1 {
                    self.key_share(slot.b, slot.h, slot.t + i, slot.t)
                } else {
                    self.value_share(slot.b, slot.h, slot.t + i, slot.t)
                },
        decreases m,
    {
        if m > 0 {
            self.lemma_later_shares(slot, m - 1);
            let earlier = self.shares(slot, m - 1);
            assert forall|i: int|
                0 <= i < self.shares(slot, m).len() implies #[trigger] self.shares(slot, m)[i]
                == if slot.p == 1 {
                self.key_share(slot.b, slot.h, slot.t + i, slot.t)
            } else {
                self.value_share(slot.b, slot.h, slot.t + i, slot.t)
            } by {
                if i < earlier.len() {
                    assert(self.shares(slot, m)[i] == earlier[i]);
                } else {
                    assert(slot.t + i == m - 1);
                }
            }
        }
    }
}

} // verus!
