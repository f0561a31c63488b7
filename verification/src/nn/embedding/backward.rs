//! Adding rows to the tables that they came from.
use crate::scalar::Scalar;
use crate::nn::embedding::forward::{rows_fit, within};
use crate::tensor::{lemma_size2, Tensor};
use crate::vector::{
    accumulate, accumulated, lemma_accumulated_row, lemma_rows_apart, lemma_summed_none,
    lemma_summed_push, row, segment, summed,
};
use vstd::prelude::*;

verus! {

/// How the rows of the gradient lie: `n` rows of `d` columns, `nsy` apart.
pub struct Scheme {
    /// The number of rows.
    pub n: usize,
    /// The number of columns.
    pub d: usize,
    /// The distance from one row to the next.
    pub nsy: usize,
}

impl Scheme {
    /// `table` with the first `m` rows of `dy` added, each to the row that its
    /// index names.
    pub open spec fn scattered<E: Scalar>(
        &self,
        table: Seq<E>,
        index: Seq<u16>,
        dy: Seq<E>,
        m: int,
    ) -> Seq<E>
        decreases m,
    {
        if m <= 0 {
            table
        } else {
            accumulated(
                self.scattered(table, index, dy, m - 1),
                index[m - 1] * self.d,
                dy.subrange((m - 1) * self.nsy, (m - 1) * self.nsy + self.d),
            )
        }
    }

    /// Adds the rows of `dy` to both tables.
    pub fn compute<E: Scalar>(
        &self,
        dtable1: &mut Vec<E>,
        dtable2: &mut Vec<E>,
        dy: &Vec<E>,
        i1: &Vec<u16>,
        i2: &Vec<u16>,
    )
        requires
            i1.len() == self.n,
            i2.len() == self.n,
            self.n > 0 ==> (self.n - 1) * self.nsy + self.d <= dy@.len(),
            forall|r: int|
                0 <= r < self.n ==> #[trigger] i1@[r] * self.d + self.d <= old(dtable1)@.len(),
            forall|r: int|
                0 <= r < self.n ==> #[trigger] i2@[r] * self.d + self.d <= old(dtable2)@.len(),
        ensures
            final(dtable1)@.len() == old(dtable1)@.len(),
            final(dtable2)@.len() == old(dtable2)@.len(),
            final(dtable1)@ == self.scattered(old(dtable1)@, i1@, dy@, self.n as int),
            final(dtable2)@ == self.scattered(old(dtable2)@, i2@, dy@, self.n as int),
    {
        let ghost (before1, before2) = (dtable1@, dtable2@);
        let mut r: usize = 0;
        while r < self.n
            invariant
                r <= self.n,
                i1.len() == self.n,
                i2.len() == self.n,
                dtable1@.len() == before1.len(),
                dtable2@.len() == before2.len(),
                self.n > 0 ==> (self.n - 1) * self.nsy + self.d <= dy@.len(),
                forall|r: int|
                    0 <= r < self.n ==> #[trigger] i1@[r] * self.d + self.d <= before1.len(),
                forall|r: int|
                    0 <= r < self.n ==> #[trigger] i2@[r] * self.d + self.d <= before2.len(),
                dtable1@ == self.scattered(before1, i1@, dy@, r as int),
                dtable2@ == self.scattered(before2, i2@, dy@, r as int),
            decreases self.n - r,
        {
            let d = self.d;
            let _len = (dy.len(), dtable1.len(), dtable2.len());
            let (k1, k2) = (i1[r] as usize, i2[r] as usize);
            proof {
                assert(0 <= r * self.nsy <= (self.n - 1) * self.nsy) by (nonlinear_arith)
                    requires
                        0 <= r < self.n,
                        0 <= self.nsy,
                ;
                assert(0 <= k1 * d && 0 <= k2 * d) by (nonlinear_arith)
                    requires
                        0 <= k1,
                        0 <= k2,
                        0 <= d,
                ;
            }
            let share = segment(dy, r * self.nsy, d);
            accumulate(dtable1, k1 * d, &share);
            accumulate(dtable2, k2 * d, &share);
            r += 1;
        }
    }
}

/// `table` with the rows of `dy` added, each to the row that its index names.
pub open spec fn scattered<E: Scalar>(
    table: Seq<E>,
    index: Seq<u16>,
    dy: Seq<E>,
    d: usize,
) -> Seq<E> {
    let scheme = Scheme { n: index.len() as usize, d, nsy: d };
    scheme.scattered(table, index, dy, index.len() as int)
}

/// Adds every row of `dy` to the rows of the two tables that its two indices
/// name.
pub fn embedding<E: Scalar>(
    dtable1: &mut Tensor<E>,
    dtable2: &mut Tensor<E>,
    dy: &Tensor<E>,
    i1: &Tensor<E>,
    i2: &Tensor<E>,
)
    requires
        old(dtable1).holds_reals(),
        old(dtable2).holds_reals(),
        dy.holds_reals(),
        i1.holds_tokens(),
        i2.holds_tokens(),
        old(dtable1).dims().len() == 2,
        old(dtable2).dims().len() == 2,
        old(dtable1).dims()[1] == old(dtable2).dims()[1],
        i1.tokens().len() == i2.tokens().len(),
        rows_fit(dy.dims(), i1.tokens().len() as int, old(dtable1).dims()[1]),
        within(i1.tokens(), old(dtable1).dims()[0] as int),
        within(i2.tokens(), old(dtable2).dims()[0] as int),
    ensures
        old(dtable1).same_form(final(dtable1)),
        old(dtable2).same_form(final(dtable2)),
        final(dtable1).cells() == scattered(
            old(dtable1).cells(),
            i1.tokens(),
            dy.cells(),
            old(dtable1).dims()[1],
        ),
        final(dtable2).cells() == scattered(
            old(dtable2).cells(),
            i2.tokens(),
            dy.cells(),
            old(dtable1).dims()[1],
        ),
{
    let n = i1.token_len();
    let d = dtable1.dim(1);
    let scheme = Scheme { n, d, nsy: d };
    let (mut t1, mut t2) = (dtable1.reals(), dtable2.reals());
    let (k1, k2) = (i1.indices(), i2.indices());
    let share = dy.reals();
    proof {
        lemma_size2(dtable1.dims());
        lemma_size2(dtable2.dims());
        if n > 0 {
            lemma_rows_apart(n - 1, n as int, d as int);
        }
        assert forall|r: int| 0 <= r < n implies #[trigger] k1@[r] * scheme.d + scheme.d
            <= t1.len() by {
            lemma_rows_apart(k1@[r] as int, dtable1.dims()[0] as int, d as int);
        }
        assert forall|r: int| 0 <= r < n implies #[trigger] k2@[r] * scheme.d + scheme.d
            <= t2.len() by {
            lemma_rows_apart(k2@[r] as int, dtable2.dims()[0] as int, d as int);
        }
    }
    scheme.compute(&mut t1, &mut t2, &share, &k1, &k2);
    dtable1.assign(t1);
    dtable2.assign(t2);
}

/// Those of the first `m` rows of `dy` whose index is `k`, in their order.
pub open spec fn rows_for<E: Scalar>(
    index: Seq<u16>,
    dy: Seq<E>,
    d: int,
    k: int,
    m: int,
) -> Seq<Seq<E>>
    decreases m,
{
    if m <= 0 {
        Seq::empty()
    } else if index[m - 1] == k {
        rows_for(index, dy, d, k, m - 1).push(row(dy, d, m - 1))
    } else {
        rows_for(index, dy, d, k, m - 1)
    }
}

/// Row `k` of a table gets the rows of `dy` whose index is `k`, in their order.
pub proof fn law_rows_gathered<E: Scalar>(
    table: Seq<E>,
    index: Seq<u16>,
    dy: Seq<E>,
    d: usize,
    rows: int,
    k: int,
)
    requires
        table.len() == rows * d,
        dy.len() == index.len() * d,
        index.len() <= usize::MAX,
        within(index, rows),
        0 <= k < rows,
    ensures
        row(scattered(table, index, dy, d), d as int, k) == summed(
            row(table, d as int, k),
            rows_for(index, dy, d as int, k, index.len() as int),
        ),
{
    let scheme = Scheme { n: index.len() as usize, d, nsy: d };
    lemma_gathered(scheme, table, index, dy, rows, k, index.len() as int);
}

/// A row that no index names is kept.
pub proof fn law_other_rows_kept<E: Scalar>(
    table: Seq<E>,
    index: Seq<u16>,
    dy: Seq<E>,
    d: usize,
    rows: int,
    k: int,
)
    requires
        table.len() == rows * d,
        dy.len() == index.len() * d,
        index.len() <= usize::MAX,
        within(index, rows),
        0 <= k < rows,
        forall|r: int| 0 <= r < index.len() ==> #[trigger] index[r] != k,
    ensures
        row(scattered(table, index, dy, d), d as int, k) == row(table, d as int, k),
{
    law_rows_gathered(table, index, dy, d, rows, k);
    lemma_no_rows_for(index, dy, d as int, k, index.len() as int);
    lemma_summed_none(row(table, d as int, k));
}

/// Where no index is `k` there are no rows for it.
proof fn lemma_no_rows_for<E: Scalar>(index: Seq<u16>, dy: Seq<E>, d: int, k: int, m: int)
    requires
        0 <= m <= index.len(),
        forall|r: int| 0 <= r < index.len() ==> #[trigger] index[r] != k,
    ensures
        rows_for(index, dy, d, k, m) == Seq::<Seq<E>>::empty(),
    decreases m,
{
    if m > 0 {
        lemma_no_rows_for(index, dy, d, k, m - 1);
    }
}

/// Row `k` after the first `m` rows.
proof fn lemma_gathered<E: Scalar>(
    scheme: Scheme,
    table: Seq<E>,
    index: Seq<u16>,
    dy: Seq<E>,
    rows: int,
    k: int,
    m: int,
)
    requires
        scheme.nsy == scheme.d,
        table.len() == rows * scheme.d,
        dy.len() == index.len() * scheme.d,
        within(index, rows),
        0 <= k < rows,
        0 <= m <= index.len(),
    ensures
        scheme.scattered(table, index, dy, m).len() == table.len(),
        row(scheme.scattered(table, index, dy, m), scheme.d as int, k) == summed(
            row(table, scheme.d as int, k),
            rows_for(index, dy, scheme.d as int, k, m),
        ),
    decreases m,
{
    let d = scheme.d as int;
    lemma_rows_apart(k, rows, d);
    if m > 0 {
        lemma_gathered(scheme, table, index, dy, rows, k, m - 1);
        let before = scheme.scattered(table, index, dy, m - 1);
        let next = row(dy, d, m - 1);
        lemma_rows_apart(m - 1, index.len() as int, d);
        assert(index[m - 1] < rows);
        lemma_accumulated_row(before, d, index[m - 1] as int, rows, next);
        lemma_summed_push(row(table, d, k), rows_for(index, dy, d, k, m - 1), next);
    } else {
        lemma_summed_none(row(table, d, k));
    }
}

/// Adding in two passes is adding the rows of both in one.
pub proof fn law_scattered_in_parts<E: Scalar>(
    table: Seq<E>,
    index1: Seq<u16>,
    dy1: Seq<E>,
    index2: Seq<u16>,
    dy2: Seq<E>,
    d: usize,
)
    requires
        dy1.len() == index1.len() * d,
        dy2.len() == index2.len() * d,
    ensures
        scattered(scattered(table, index1, dy1, d), index2, dy2, d) == scattered(
            table,
            index1 + index2,
            dy1 + dy2,
            d,
        ),
{
    let (n1, n2) = (index1.len() as int, index2.len() as int);
    let one = Scheme { n: n1 as usize, d, nsy: d };
    let two = Scheme { n: n2 as usize, d, nsy: d };
    let all = Scheme { n: (n1 + n2) as usize, d, nsy: d };
    lemma_first_pass(one, all, table, index1, dy1, index2, dy2, n1);
    lemma_second_pass(two, all, table, index1, dy1, index2, dy2, n2);
}

/// The first rows of both passes are those of the first.
proof fn lemma_first_pass<E: Scalar>(
    one: Scheme,
    all: Scheme,
    table: Seq<E>,
    index1: Seq<u16>,
    dy1: Seq<E>,
    index2: Seq<u16>,
    dy2: Seq<E>,
    m: int,
)
    requires
        one.nsy == one.d == all.d == all.nsy,
        dy1.len() == index1.len() * one.d,
        0 <= m <= index1.len(),
    ensures
        one.scattered(table, index1, dy1, m) == all.scattered(
            table,
            index1 + index2,
            dy1 + dy2,
            m,
        ),
    decreases m,
{
    if m > 0 {
        lemma_first_pass(one, all, table, index1, dy1, index2, dy2, m - 1);
        let d = one.d as int;
        lemma_rows_apart(m - 1, index1.len() as int, d);
        assert(dy1.subrange((m - 1) * d, (m - 1) * d + d) =~= (dy1 + dy2).subrange(
            (m - 1) * d,
            (m - 1) * d + d,
        ));
    }
}

/// The other rows of both passes are those of the second.
proof fn lemma_second_pass<E: Scalar>(
    two: Scheme,
    all: Scheme,
    table: Seq<E>,
    index1: Seq<u16>,
    dy1: Seq<E>,
    index2: Seq<u16>,
    dy2: Seq<E>,
    m: int,
)
    requires
        two.nsy == two.d == all.d == all.nsy,
        dy1.len() == index1.len() * two.d,
        dy2.len() == index2.len() * two.d,
        0 <= m <= index2.len(),
    ensures
        two.scattered(
            all.scattered(table, index1 + index2, dy1 + dy2, index1.len() as int),
            index2,
            dy2,
            m,
        ) == all.scattered(table, index1 + index2, dy1 + dy2, index1.len() + m),
    decreases m,
{
    if m > 0 {
        lemma_second_pass(two, all, table, index1, dy1, index2, dy2, m - 1);
        let (d, n1) = (two.d as int, index1.len() as int);
        lemma_rows_apart(m - 1, index2.len() as int, d);
        assert((n1 + m - 1) * d == n1 * d + (m - 1) * d) by (nonlinear_arith);
        assert(dy2.subrange((m - 1) * d, (m - 1) * d + d) =~= (dy1 + dy2).subrange(
            (n1 + m - 1) * d,
            (n1 + m - 1) * d + d,
        ));
    }
}

} // verus!
