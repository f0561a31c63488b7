//! Looking rows up and adding them.
use crate::scalar::Scalar;
use crate::tensor::{lemma_size2, size, Tensor};
use crate::vector::{lemma_overwritten_row, lemma_rows_apart, overwrite, overwritten, row};
use vstd::prelude::*;

verus! {

/// The element-wise sum.
pub open spec fn sums<E: Scalar>(a: Seq<E>, b: Seq<E>) -> Seq<E> {
    Seq::new(a.len(), |i: int| a[i].plus_spec(b[i]))
}

/// How the rows of the output lie: `n` rows of `d` columns, `nsy` apart.
pub struct Scheme {
    /// The number of rows.
    pub n: usize,
    /// The number of columns.
    pub d: usize,
    /// The distance from one row to the next.
    pub nsy: usize,
}

impl Scheme {
    /// `y` with its first `m` rows filled: each the sum of the rows of the two
    /// tables that its two indices name.
    pub open spec fn filled<E: Scalar>(
        &self,
        y: Seq<E>,
        i1: Seq<u16>,
        i2: Seq<u16>,
        table1: Seq<E>,
        table2: Seq<E>,
        m: int,
    ) -> Seq<E>
        decreases m,
    {
        if m <= 0 {
            y
        } else {
            overwritten(
                self.filled(y, i1, i2, table1, table2, m - 1),
                (m - 1) * self.nsy,
                sums(
                    row(table1, self.d as int, i1[m - 1] as int),
                    row(table2, self.d as int, i2[m - 1] as int),
                ),
            )
        }
    }

    /// Fills the rows of `y`.
    pub fn compute<E: Scalar>(
        &self,
        y: &mut Vec<E>,
        i1: &Vec<u16>,
        i2: &Vec<u16>,
        table1: &Vec<E>,
        table2: &Vec<E>,
    )
        requires
            i1.len() == self.n,
            i2.len() == self.n,
            self.n > 0 ==> (self.n - 1) * self.nsy + self.d <= old(y)@.len(),
            forall|r: int|
                0 <= r < self.n ==> #[trigger] i1@[r] * self.d + self.d <= table1.len(),
            forall|r: int|
                0 <= r < self.n ==> #[trigger] i2@[r] * self.d + self.d <= table2.len(),
        ensures
            final(y)@.len() == old(y)@.len(),
            final(y)@ == self.filled(
                old(y)@,
                i1@,
                i2@,
                table1@,
                table2@,
                self.n as int,
            ),
    {
        let ghost before = y@;
        let mut r: usize = 0;
        while r < self.n
            invariant
                r <= self.n,
                i1.len() == self.n,
                i2.len() == self.n,
                y@.len() == before.len(),
                self.n > 0 ==> (self.n - 1) * self.nsy + self.d <= y@.len(),
                forall|r: int|
                    0 <= r < self.n ==> #[trigger] i1@[r] * self.d + self.d <= table1.len(),
                forall|r: int|
                    0 <= r < self.n ==> #[trigger] i2@[r] * self.d + self.d <= table2.len(),
                y@ == self.filled(before, i1@, i2@, table1@, table2@, r as int),
            decreases self.n - r,
        {
            let d = self.d;
            let _len = y.len();
            let (k1, k2) = (i1[r] as usize, i2[r] as usize);
            proof {
                assert(0 <= r * self.nsy <= (self.n - 1) * self.nsy) by (nonlinear_arith)
                    requires
                        0 <= r < self.n,
                        0 <= self.nsy,
                ;
                assert(0 <= k1 * d && 0 <= k2 * d) by (nonlinear_arith)
                    requires
                        0 <= k1,
                        0 <= k2,
                        0 <= d,
                ;
            }
            let mut out: Vec<E> = Vec::new();
            while out.len() < d
                invariant
                    out.len() <= d,
                    0 <= k1 * d,
                    0 <= k2 * d,
                    k1 * d + d <= table1.len(),
                    k2 * d + d <= table2.len(),
                    forall|i: int|
                        0 <= i < out.len() ==> #[trigger] out@[i] == table1@[k1 * d + i].plus_spec(
                            table2@[k2 * d + i],
                        ),
                decreases d - out.len(),
            {
                let i: usize = out.len();
                out.push(table1[k1 * d + i].plus(&table2[k2 * d + i]));
            }
            assert(out@ =~= sums(
                row(table1@, d as int, k1 as int),
                row(table2@, d as int, k2 as int),
            ));
            overwrite(y, r * self.nsy, &out);
            r += 1;
        }
    }
}

/// Where rows follow each other without a gap, filling sets each of them.
proof fn lemma_filled_rows<E: Scalar>(
    scheme: Scheme,
    y: Seq<E>,
    i1: Seq<u16>,
    i2: Seq<u16>,
    table1: Seq<E>,
    table2: Seq<E>,
    m: int,
)
    requires
        scheme.nsy == scheme.d,
        0 <= m <= scheme.n,
        y.len() == scheme.n * scheme.d,
        forall|r: int|
            0 <= r < scheme.n ==> #[trigger] i1[r] * scheme.d + scheme.d <= table1.len(),
    ensures
        scheme.filled(y, i1, i2, table1, table2, m).len() == y.len(),
        forall|r: int|
            0 <= r < m ==> #[trigger] row(
                scheme.filled(y, i1, i2, table1, table2, m),
                scheme.d as int,
                r,
            ) == sums(
                row(table1, scheme.d as int, i1[r] as int),
                row(table2, scheme.d as int, i2[r] as int),
            ),
    decreases m,
{
    if m > 0 {
        lemma_filled_rows(scheme, y, i1, i2, table1, table2, m - 1);
        let d = scheme.d as int;
        let out = sums(row(table1, d, i1[m - 1] as int), row(table2, d, i2[m - 1] as int));
        let k = i1[m - 1] as int;
        assert(0 <= k * d) by (nonlinear_arith)
            requires
                0 <= k,
                0 <= d,
        ;
        assert(i1[m - 1] * scheme.d + scheme.d <= table1.len());
        assert(out.len() == d);
        lemma_overwritten_row(
            scheme.filled(y, i1, i2, table1, table2, m - 1),
            d,
            m - 1,
            scheme.n as int,
            out,
        );
    }
}

/// Whether every index names a row of the table.
pub open spec fn within(index: Seq<u16>, rows: int) -> bool {
    forall|r: int| 0 <= r < index.len() ==> #[trigger] index[r] < rows
}

/// Whether a tensor of this shape is `n` rows of `d` columns: the last extent is
/// the width, and the others count the rows.
pub open spec fn rows_fit(dims: Seq<usize>, n: int, d: usize) -> bool {
    &&& dims.len() > 0
    &&& dims.last() == d
    &&& size(dims.drop_last()) == n
}

/// Fills every row of `y` with the sum of the rows of the two tables that its
/// two indices name.
pub fn embedding<E: Scalar>(
    y: &mut Tensor<E>,
    i1: &Tensor<E>,
    i2: &Tensor<E>,
    table1: &Tensor<E>,
    table2: &Tensor<E>,
)
    requires
        old(y).holds_reals(),
        i1.holds_tokens(),
        i2.holds_tokens(),
        table1.holds_reals(),
        table2.holds_reals(),
        table1.dims().len() == 2,
        table2.dims().len() == 2,
        table1.dims()[1] == table2.dims()[1],
        i1.tokens().len() == i2.tokens().len(),
        rows_fit(old(y).dims(), i1.tokens().len() as int, table1.dims()[1]),
        within(i1.tokens(), table1.dims()[0] as int),
        within(i2.tokens(), table2.dims()[0] as int),
    ensures
        old(y).same_form(final(y)),
        forall|r: int|
            0 <= r < i1.tokens().len() ==> #[trigger] row(
                final(y).cells(),
                table1.dims()[1] as int,
                r,
            ) == sums(
                row(table1.cells(), table1.dims()[1] as int, i1.tokens()[r] as int),
                row(table2.cells(), table1.dims()[1] as int, i2.tokens()[r] as int),
            ),
{
    let n = i1.token_len();
    let d = table1.dim(1);
    let scheme = Scheme { n, d, nsy: d };
    let mut cells = y.reals();
    let (k1, k2) = (i1.indices(), i2.indices());
    let (t1, t2) = (table1.reals(), table2.reals());
    proof {
        lemma_size2(table1.dims());
        lemma_size2(table2.dims());
        if n > 0 {
            lemma_rows_apart(n - 1, n as int, d as int);
        }
        assert forall|r: int| 0 <= r < n implies #[trigger] k1@[r] * scheme.d + scheme.d
            <= t1.len() by {
            lemma_rows_apart(k1@[r] as int, table1.dims()[0] as int, d as int);
        }
        assert forall|r: int| 0 <= r < n implies #[trigger] k2@[r] * scheme.d + scheme.d
            <= t2.len() by {
            lemma_rows_apart(k2@[r] as int, table2.dims()[0] as int, d as int);
        }
        lemma_filled_rows(scheme, cells@, k1@, k2@, t1@, t2@, n as int);
    }
    scheme.compute(&mut cells, &k1, &k2, &t1, &t2);
    y.assign(cells);
}

} // verus!
