//! Arithmetic that writes its operations down instead of carrying them out.
use crate::exact::{
    exact, law_sum_grows, lemma_sum_same, lemma_total_is_sum, smooth, start_value, sum_of, total,
    values,
};
use crate::scalar::{cell2, spot, strided, Scalar};
use crate::vector::{lemma_places_apart, lemma_rows_apart, products};
use vstd::prelude::*;

verus! {

/// A number, as the expression that it comes from.
///
/// Running a layer on terms shows for every element of its result what it is
/// made of, and in what order.
#[derive(Debug, PartialEq, Eq)]
pub enum Term {
    /// A number given from outside.
    Given(usize),
    /// Zero.
    Zero,
    /// One.
    One,
    /// The number below every other one.
    Bottom,
    /// The sum of no numbers.
    EmptySum,
    /// A count.
    Count(usize),
    /// A sum.
    Plus(Box<Term>, Box<Term>),
    /// A difference.
    Minus(Box<Term>, Box<Term>),
    /// A product.
    Times(Box<Term>, Box<Term>),
    /// A quotient.
    Over(Box<Term>, Box<Term>),
    /// A number with its sign changed.
    Negated(Box<Term>),
    /// An exponential.
    Exp(Box<Term>),
    /// A natural logarithm.
    Ln(Box<Term>),
    /// An inverse square root.
    Rsqrt(Box<Term>),
    /// The second number where it is greater than the first, else the first.
    Raised(Box<Term>, Box<Term>),
    /// The later of two numbers in their total order.
    TotalMax(Box<Term>, Box<Term>),
}

impl Term {
    /// Copies the expression.
    pub fn duplicate(&self) -> (r: Term)
        ensures
            r == *self,
        decreases self,
    {
        match self {
            Term::Given(i) => Term::Given(*i),
            Term::Zero => Term::Zero,
            Term::One => Term::One,
            Term::Bottom => Term::Bottom,
            Term::EmptySum => Term::EmptySum,
            Term::Count(n) => Term::Count(*n),
            Term::Plus(a, b) => Term::Plus(Box::new(a.duplicate()), Box::new(b.duplicate())),
            Term::Minus(a, b) => Term::Minus(Box::new(a.duplicate()), Box::new(b.duplicate())),
            Term::Times(a, b) => Term::Times(Box::new(a.duplicate()), Box::new(b.duplicate())),
            Term::Over(a, b) => Term::Over(Box::new(a.duplicate()), Box::new(b.duplicate())),
            Term::Negated(a) => Term::Negated(Box::new(a.duplicate())),
            Term::Exp(a) => Term::Exp(Box::new(a.duplicate())),
            Term::Ln(a) => Term::Ln(Box::new(a.duplicate())),
            Term::Rsqrt(a) => Term::Rsqrt(Box::new(a.duplicate())),
            Term::Raised(a, b) => Term::Raised(Box::new(a.duplicate()), Box::new(b.duplicate())),
            Term::TotalMax(a, b) => Term::TotalMax(
                Box::new(a.duplicate()),
                Box::new(b.duplicate()),
            ),
        }
    }

    /// The products of `lhs` and `rhs`, added to the start one after the other.
    pub open spec fn dot(start: Term, lhs: Seq<Term>, rhs: Seq<Term>) -> Term
        decreases lhs.len(),
    {
        if lhs.len() == 0 {
            start
        } else {
            Term::Plus(
                Box::new(Term::dot(start, lhs.drop_last(), rhs.drop_last())),
                Box::new(Term::Times(Box::new(lhs.last()), Box::new(rhs.last()))),
            )
        }
    }
}

impl Scalar for Term {
    open spec fn zero_spec() -> Term {
        Term::Zero
    }

    open spec fn one_spec() -> Term {
        Term::One
    }

    open spec fn bottom_spec() -> Term {
        Term::Bottom
    }

    open spec fn empty_sum_spec() -> Term {
        Term::EmptySum
    }

    open spec fn count_spec(n: usize) -> Term {
        Term::Count(n)
    }

    open spec fn plus_spec(self, other: Term) -> Term {
        Term::Plus(Box::new(self), Box::new(other))
    }

    open spec fn minus_spec(self, other: Term) -> Term {
        Term::Minus(Box::new(self), Box::new(other))
    }

    open spec fn times_spec(self, other: Term) -> Term {
        Term::Times(Box::new(self), Box::new(other))
    }

    open spec fn over_spec(self, other: Term) -> Term {
        Term::Over(Box::new(self), Box::new(other))
    }

    open spec fn negated_spec(self) -> Term {
        Term::Negated(Box::new(self))
    }

    open spec fn exp_spec(self) -> Term {
        Term::Exp(Box::new(self))
    }

    open spec fn ln_spec(self) -> Term {
        Term::Ln(Box::new(self))
    }

    open spec fn rsqrt_spec(self) -> Term {
        Term::Rsqrt(Box::new(self))
    }

    open spec fn raised_spec(self, other: Term) -> Term {
        Term::Raised(Box::new(self), Box::new(other))
    }

    open spec fn total_max_spec(self, other: Term) -> Term {
        Term::TotalMax(Box::new(self), Box::new(other))
    }

    open spec fn accumulates(
        start: Option<Term>,
        lhs: Seq<Term>,
        rhs: Seq<Term>,
        out: Term,
    ) -> bool {
        out == Term::dot(
            match start {
                Some(start) => start,
                None => Term::Zero,
            },
            lhs,
            rhs,
        )
    }

    fn zero() -> Term {
        Term::Zero
    }

    fn one() -> Term {
        Term::One
    }

    fn bottom() -> Term {
        Term::Bottom
    }

    fn empty_sum() -> Term {
        Term::EmptySum
    }

    fn count(n: usize) -> Term {
        Term::Count(n)
    }

    fn copy(&self) -> Term {
        self.duplicate()
    }

    fn plus(&self, other: &Term) -> Term {
        Term::Plus(Box::new(self.duplicate()), Box::new(other.duplicate()))
    }

    fn minus(&self, other: &Term) -> Term {
        Term::Minus(Box::new(self.duplicate()), Box::new(other.duplicate()))
    }

    fn times(&self, other: &Term) -> Term {
        Term::Times(Box::new(self.duplicate()), Box::new(other.duplicate()))
    }

    fn over(&self, other: &Term) -> Term {
        Term::Over(Box::new(self.duplicate()), Box::new(other.duplicate()))
    }

    fn negated(&self) -> Term {
        Term::Negated(Box::new(self.duplicate()))
    }

    fn exp(&self) -> Term {
        Term::Exp(Box::new(self.duplicate()))
    }

    fn ln(&self) -> Term {
        Term::Ln(Box::new(self.duplicate()))
    }

    fn rsqrt(&self) -> Term {
        Term::Rsqrt(Box::new(self.duplicate()))
    }

    fn raised(&self, other: &Term) -> Term {
        Term::Raised(Box::new(self.duplicate()), Box::new(other.duplicate()))
    }

    fn total_max(&self, other: &Term) -> Term {
        Term::TotalMax(Box::new(self.duplicate()), Box::new(other.duplicate()))
    }

    fn gemm(
        m: usize,
        n: usize,
        k: usize,
        dst: &mut Vec<Term>,
        read_dst: bool,
        lhs: &Vec<Term>,
        lhs_cs: usize,
        lhs_rs: usize,
        rhs: &Vec<Term>,
        rhs_cs: usize,
        rhs_rs: usize,
    ) {
        let ghost before = dst@;
        let ghost goal = |i: int, j: int|
            Term::dot(
                if read_dst {
                    cell2(before, n as int, i, j)
                } else {
                    Term::Zero
                },
                strided(lhs@, i * lhs_rs, lhs_cs as int, k as int),
                strided(rhs@, j * rhs_cs, rhs_rs as int, k as int),
            );
        let mut at: usize = 0;
        let mut i: usize = 0;
        while i < m
            invariant
                i <= m,
                at == i * n,
                before.len() == m * n,
                dst@.len() == m * n,
                forall|i: int, p: int|
                    0 <= i < m && 0 <= p < k ==> 0 <= #[trigger] spot(
                        i,
                        lhs_rs as int,
                        p,
                        lhs_cs as int,
                    ) < lhs@.len(),
                forall|p: int, j: int|
                    0 <= p < k && 0 <= j < n ==> 0 <= #[trigger] spot(
                        p,
                        rhs_rs as int,
                        j,
                        rhs_cs as int,
                    ) < rhs@.len(),
                goal == (|i: int, j: int|
                    Term::dot(
                        if read_dst {
                            cell2(before, n as int, i, j)
                        } else {
                            Term::Zero
                        },
                        strided(lhs@, i * lhs_rs, lhs_cs as int, k as int),
                        strided(rhs@, j * rhs_cs, rhs_rs as int, k as int),
                    )),
                forall|i2: int, j2: int|
                    0 <= i2 < i && 0 <= j2 < n ==> #[trigger] cell2(dst@, n as int, i2, j2) == goal(
                        i2,
                        j2,
                    ),
                forall|c: int| at <= c < m * n ==> #[trigger] dst@[c] == before[c],
            decreases m - i,
        {
            let mut j: usize = 0;
            proof {
                lemma_rows_apart(i as int, m as int, n as int);
            }
            while j < n
                invariant
                    i < m,
                    j <= n,
                    at == i * n + j,
                    i * n + n <= m * n,
                    before.len() == m * n,
                    dst@.len() == m * n,
                    forall|i: int, p: int|
                        0 <= i < m && 0 <= p < k ==> 0 <= #[trigger] spot(
                            i,
                            lhs_rs as int,
                            p,
                            lhs_cs as int,
                        ) < lhs@.len(),
                    forall|p: int, j: int|
                        0 <= p < k && 0 <= j < n ==> 0 <= #[trigger] spot(
                            p,
                            rhs_rs as int,
                            j,
                            rhs_cs as int,
                        ) < rhs@.len(),
                    goal == (|i: int, j: int|
                        Term::dot(
                            if read_dst {
                                cell2(before, n as int, i, j)
                            } else {
                                Term::Zero
                            },
                            strided(lhs@, i * lhs_rs, lhs_cs as int, k as int),
                            strided(rhs@, j * rhs_cs, rhs_rs as int, k as int),
                        )),
                    forall|i2: int, j2: int|
                        0 <= j2 < n && (0 <= i2 < i || (i2 == i && j2 < j)) ==> #[trigger] cell2(
                            dst@,
                            n as int,
                            i2,
                            j2,
                        ) == goal(i2, j2),
                    forall|c: int| at <= c < m * n ==> #[trigger] dst@[c] == before[c],
                decreases n - j,
            {
                let _len = (dst.len(), lhs.len(), rhs.len());
                let start = if read_dst {
                    dst[at].duplicate()
                } else {
                    Term::Zero
                };
                let value = dot_product(
                    start,
                    lhs,
                    i,
                    lhs_rs,
                    lhs_cs,
                    rhs,
                    j,
                    rhs_cs,
                    rhs_rs,
                    k,
                    m,
                    n,
                );
                assert(cell2(before, n as int, i as int, j as int) == before[at as int]);
                assert(value == goal(i as int, j as int));
                let ghost prior = dst@;
                dst.set(at, value);
                proof {
                    assert forall|i2: int, j2: int|
                        0 <= j2 < n && (0 <= i2 < i || (i2 == i && j2 < j
                            + 1)) implies #[trigger] cell2(dst@, n as int, i2, j2) == goal(
                        i2,
                        j2,
                    ) by {
                        if i2 == i && j2 == j {
                        } else {
                            lemma_rows_apart(i2, m as int, n as int);
                            if i2 * n + j2 == at {
                                lemma_places_apart(i2, j2, i as int, j as int, n as int);
                            }
                            assert(cell2(prior, n as int, i2, j2) == goal(i2, j2));
                        }
                    }
                }
                at += 1;
                j += 1;
            }
            i += 1;
            assert(at == i * n) by (nonlinear_arith)
                requires
                    at == (i - 1) * n + n,
            ;
        }
    }
}

/// Multiplies a row of the left matrix with a column of the right one.
fn dot_product(
    start: Term,
    lhs: &Vec<Term>,
    i: usize,
    lhs_rs: usize,
    lhs_cs: usize,
    rhs: &Vec<Term>,
    j: usize,
    rhs_cs: usize,
    rhs_rs: usize,
    k: usize,
    m: usize,
    n: usize,
) -> (value: Term)
    requires
        i < m,
        j < n,
        forall|i: int, p: int|
            0 <= i < m && 0 <= p < k ==> 0 <= #[trigger] spot(i, lhs_rs as int, p, lhs_cs as int)
                < lhs@.len(),
        forall|p: int, j: int|
            0 <= p < k && 0 <= j < n ==> 0 <= #[trigger] spot(p, rhs_rs as int, j, rhs_cs as int)
                < rhs@.len(),
    ensures
        value == Term::dot(
            start,
            strided(lhs@, i * lhs_rs, lhs_cs as int, k as int),
            strided(rhs@, j * rhs_cs, rhs_rs as int, k as int),
        ),
{
    let mut value = start;
    let mut p: usize = 0;
    while p < k
        invariant
            p <= k,
            i < m,
            j < n,
            forall|i: int, p: int|
                0 <= i < m && 0 <= p < k ==> 0 <= #[trigger] spot(
                    i,
                    lhs_rs as int,
                    p,
                    lhs_cs as int,
                ) < lhs@.len(),
            forall|p: int, j: int|
                0 <= p < k && 0 <= j < n ==> 0 <= #[trigger] spot(
                    p,
                    rhs_rs as int,
                    j,
                    rhs_cs as int,
                ) < rhs@.len(),
            value == Term::dot(
                start,
                strided(lhs@, i * lhs_rs, lhs_cs as int, p as int),
                strided(rhs@, j * rhs_cs, rhs_rs as int, p as int),
            ),
        decreases k - p,
    {
        let _len = (lhs.len(), rhs.len());
        proof {
            let l = spot(i as int, lhs_rs as int, p as int, lhs_cs as int);
            let r = spot(p as int, rhs_rs as int, j as int, rhs_cs as int);
            assert(0 <= i * lhs_rs && 0 <= p * lhs_cs && 0 <= j * rhs_cs && 0 <= p * rhs_rs)
                by (nonlinear_arith)
                requires
                    0 <= i,
                    0 <= lhs_rs,
                    0 <= p,
                    0 <= lhs_cs,
                    0 <= j,
                    0 <= rhs_cs,
                    0 <= rhs_rs,
            ;
            assert(0 <= l < lhs@.len());
            assert(0 <= r < rhs@.len());
            let left = strided(lhs@, i * lhs_rs, lhs_cs as int, p + 1);
            let right = strided(rhs@, j * rhs_cs, rhs_rs as int, p + 1);
            assert(left.drop_last() =~= strided(lhs@, i * lhs_rs, lhs_cs as int, p as int));
            assert(right.drop_last() =~= strided(rhs@, j * rhs_cs, rhs_rs as int, p as int));
        }
        let product = Term::Times(
            Box::new(lhs[i * lhs_rs + p * lhs_cs].duplicate()),
            Box::new(rhs[j * rhs_cs + p * rhs_rs].duplicate()),
        );
        value = Term::Plus(Box::new(value), Box::new(product));
        p += 1;
    }
    value
}

/// The products of two rows, added to a start, come to the start and the sum of the
/// products.
pub proof fn law_accumulated_value(
    val: spec_fn(Term) -> real,
    start: Option<Term>,
    lhs: Seq<Term>,
    rhs: Seq<Term>,
    out: Term,
)
    requires
        val(Term::Zero) == 0 as real,
        forall|a: Box<Term>, b: Box<Term>| #[trigger] val(Term::Plus(a, b)) == val(*a) + val(*b),
        forall|a: Box<Term>, b: Box<Term>| #[trigger] val(Term::Times(a, b)) == val(*a) * val(*b),
        lhs.len() == rhs.len(),
        Term::accumulates(start, lhs, rhs, out),
    ensures
        val(out) == match start {
            Some(start) => val(start),
            None => 0 as real,
        } + sum_of(lhs.len() as int, |p: int| val(lhs[p]) * val(rhs[p])),
    decreases lhs.len(),
{
    let f = |p: int| val(lhs[p]) * val(rhs[p]);
    let n = lhs.len() as int;
    if n == 0 {
        law_sum_grows(0, f);
    } else {
        let (l, r) = (lhs.drop_last(), rhs.drop_last());
        let first = match start {
            Some(start) => start,
            None => Term::Zero,
        };
        law_accumulated_value(val, start, l, r, Term::dot(first, l, r));
        lemma_sum_same(n - 1, |p: int| val(l[p]) * val(r[p]), f);
        law_sum_grows(n - 1, f);
    }
}

/// Reading every expression as what it says is exact: each operation of terms
/// stands for the operation on the numbers that its terms stand for.
pub proof fn law_reading_is_exact(val: spec_fn(Term) -> real)
    requires
        val(Term::Zero) == 0 as real,
        val(Term::One) == 1 as real,
        val(Term::EmptySum) == 0 as real,
        forall|n: usize| #[trigger] val(Term::Count(n)) == (n as int) as real,
        forall|a: Box<Term>, b: Box<Term>| #[trigger] val(Term::Plus(a, b)) == val(*a) + val(*b),
        forall|a: Box<Term>, b: Box<Term>| #[trigger] val(Term::Minus(a, b)) == val(*a) - val(*b),
        forall|a: Box<Term>, b: Box<Term>| #[trigger] val(Term::Times(a, b)) == val(*a) * val(*b),
        forall|a: Box<Term>, b: Box<Term>|
            val(*b) != 0 as real ==> #[trigger] val(Term::Over(a, b)) == val(*a) / val(*b),
        forall|a: Box<Term>| #[trigger] val(Term::Exp(a)) > 0 as real,
        forall|a: Box<Term>|
            val(*a) > 0 as real ==> {
                let root = #[trigger] val(Term::Rsqrt(a));
                root > 0 as real && root * root * val(*a) == 1 as real
            },
    ensures
        exact(val),
{
    assert forall|start: Option<Term>, lhs: Seq<Term>, rhs: Seq<Term>, out: Term| #[trigger]
        Term::accumulates(start, lhs, rhs, out) && lhs.len() == rhs.len() implies val(out)
        == start_value(val, start) + total(values(val, products(lhs, rhs))) by {
        law_accumulated_value(val, start, lhs, rhs, out);
        lemma_total_is_sum(
            values(val, products(lhs, rhs)),
            |p: int| val(lhs[p]) * val(rhs[p]),
        );
    }
}

/// Reading exponential, logarithm, sign and maxima as those of the reals is smooth.
pub proof fn law_reading_is_smooth(val: spec_fn(Term) -> real)
    requires
        forall|a: Box<Term>, b: Box<Term>, c: Box<Term>|
            #![trigger val(Term::Exp(a)), val(Term::Exp(b)), val(Term::Exp(c))]
            val(*c) == val(*a) + val(*b) ==> val(Term::Exp(c)) == val(Term::Exp(a)) * val(
                Term::Exp(b),
            ),
        forall|a: Box<Term>, b: Box<Term>|
            #![trigger val(Term::Exp(a)), val(Term::Exp(b))]
            {
                &&& val(*a) < val(*b) ==> val(Term::Exp(a)) < val(Term::Exp(b))
                &&& val(*a) == val(*b) ==> val(Term::Exp(a)) == val(Term::Exp(b))
            },
        forall|a: Box<Term>| #[trigger] val(Term::Negated(a)) == -val(*a),
        forall|a: Box<Term>|
            val(*a) > 0 as real ==> #[trigger] val(Term::Exp(Box::new(Term::Ln(a)))) == val(*a),
        forall|a: Box<Term>, b: Box<Term>|
            #[trigger] val(Term::TotalMax(a, b)) == if val(*a) < val(*b) {
                val(*b)
            } else {
                val(*a)
            },
        forall|a: Box<Term>, b: Box<Term>|
            #[trigger] val(Term::Raised(a, b)) == if *a == Term::Bottom || val(*a) < val(*b) {
                val(*b)
            } else {
                val(*a)
            },
    ensures
        smooth(val),
{
    reveal(smooth);
}

} // verus!
