//! The arithmetic that the layers are written in.
use vstd::prelude::*;

verus! {

/// The element of a dense row-major matrix with `n` columns at row `i`, column `j`.
pub open spec fn cell2<T>(cells: Seq<T>, n: int, i: int, j: int) -> T {
    cells[i * n + j]
}

/// The place of the element at row `i`, column `p` of a strided matrix.
pub open spec fn spot(i: int, rs: int, p: int, cs: int) -> int {
    i * rs + p * cs
}

/// `k` elements of a buffer, starting at `start`, `stride` apart.
pub open spec fn strided<T>(cells: Seq<T>, start: int, stride: int, k: int) -> Seq<T> {
    Seq::new(k as nat, |p: int| cells[start + p * stride])
}

/// A number type.
///
/// Every operation is deterministic and named by a spec function; nothing else
/// is assumed of it: no operation need be associative or commutative, and none
/// rounds in a given way.  The one exception is the matrix product, whose
/// implementation may add up its terms in any order: it is described by a
/// relation.
pub trait Scalar: Sized {
    /// The number zero, which is what zeroed memory holds.
    spec fn zero_spec() -> Self;

    /// The number one.
    spec fn one_spec() -> Self;

    /// The number below every other one.
    spec fn bottom_spec() -> Self;

    /// The sum of no numbers at all.
    spec fn empty_sum_spec() -> Self;

    /// The number that stands for a count.
    spec fn count_spec(n: usize) -> Self;

    /// The sum.
    spec fn plus_spec(self, other: Self) -> Self;

    /// The difference.
    spec fn minus_spec(self, other: Self) -> Self;

    /// The product.
    spec fn times_spec(self, other: Self) -> Self;

    /// The quotient.
    spec fn over_spec(self, other: Self) -> Self;

    /// The number with its sign changed.
    spec fn negated_spec(self) -> Self;

    /// The exponential.
    spec fn exp_spec(self) -> Self;

    /// The natural logarithm.
    spec fn ln_spec(self) -> Self;

    /// The inverse square root.
    spec fn rsqrt_spec(self) -> Self;

    /// `other` where it is greater than `self`, and `self` elsewhere.
    spec fn raised_spec(self, other: Self) -> Self;

    /// `self` where it comes after `other` in the total order of the numbers,
    /// and `other` elsewhere.
    spec fn total_max_spec(self, other: Self) -> Self;

    /// Whether `out` is an admissible result of adding the products
    /// `lhs[p] * rhs[p]` to `start`, or of adding them up where there is no
    /// start.  Where an implementation does not say, every result is.  What the
    /// results come to without rounding is part of [`crate::exact::exact`].
    open spec fn accumulates(
        start: Option<Self>,
        lhs: Seq<Self>,
        rhs: Seq<Self>,
        out: Self,
    ) -> bool {
        true
    }

    /// Returns zero.
    fn zero() -> (r: Self)
        ensures
            r == Self::zero_spec(),
    ;

    /// Returns one.
    fn one() -> (r: Self)
        ensures
            r == Self::one_spec(),
    ;

    /// Returns the number below every other one.
    fn bottom() -> (r: Self)
        ensures
            r == Self::bottom_spec(),
    ;

    /// Returns the sum of no numbers.
    fn empty_sum() -> (r: Self)
        ensures
            r == Self::empty_sum_spec(),
    ;

    /// Converts a count.
    fn count(n: usize) -> (r: Self)
        ensures
            r == Self::count_spec(n),
    ;

    /// Returns the same number once more.
    fn copy(&self) -> (r: Self)
        ensures
            r == *self,
    ;

    /// Adds.
    fn plus(&self, other: &Self) -> (r: Self)
        ensures
            r == self.plus_spec(*other),
    ;

    /// Subtracts `other`.
    fn minus(&self, other: &Self) -> (r: Self)
        ensures
            r == self.minus_spec(*other),
    ;

    /// Multiplies.
    fn times(&self, other: &Self) -> (r: Self)
        ensures
            r == self.times_spec(*other),
    ;

    /// Divides by `other`.
    fn over(&self, other: &Self) -> (r: Self)
        ensures
            r == self.over_spec(*other),
    ;

    /// Changes the sign.
    fn negated(&self) -> (r: Self)
        ensures
            r == self.negated_spec(),
    ;

    /// Returns the exponential.
    fn exp(&self) -> (r: Self)
        ensures
            r == self.exp_spec(),
    ;

    /// Returns the natural logarithm.
    fn ln(&self) -> (r: Self)
        ensures
            r == self.ln_spec(),
    ;

    /// Returns the inverse square root.
    fn rsqrt(&self) -> (r: Self)
        ensures
            r == self.rsqrt_spec(),
    ;

    /// Returns `other` where it is greater than `self`, and `self` elsewhere.
    fn raised(&self, other: &Self) -> (r: Self)
        ensures
            r == self.raised_spec(*other),
    ;

    /// Returns the later of two numbers in their total order; `other` where
    /// they are the same.
    fn total_max(&self, other: &Self) -> (r: Self)
        ensures
            r == self.total_max_spec(*other),
    ;

    /// Multiplies an `m` by `k` matrix with a `k` by `n` matrix.
    ///
    /// `dst` is dense and row-major.  `lhs[i, p]` stands at
    /// `i * lhs_rs + p * lhs_cs`, and `rhs[p, j]` at `p * rhs_rs + j * rhs_cs`.
    /// The product is added to `dst` where `read_dst` is set and replaces it
    /// elsewhere.
    fn gemm(
        m: usize,
        n: usize,
        k: usize,
        dst: &mut Vec<Self>,
        read_dst: bool,
        lhs: &Vec<Self>,
        lhs_cs: usize,
        lhs_rs: usize,
        rhs: &Vec<Self>,
        rhs_cs: usize,
        rhs_rs: usize,
    )
        requires
            old(dst)@.len() == m * n,
            forall|i: int, p: int|
                0 <= i < m && 0 <= p < k ==> 0 <= #[trigger] spot(
                    i,
                    lhs_rs as int,
                    p,
                    lhs_cs as int,
                ) < lhs@.len(),
            forall|p: int, j: int|
                0 <= p < k && 0 <= j < n ==> 0 <= #[trigger] spot(
                    p,
                    rhs_rs as int,
                    j,
                    rhs_cs as int,
                ) < rhs@.len(),
        ensures
            final(dst)@.len() == m * n,
            forall|i: int, j: int|
                0 <= i < m && 0 <= j < n ==> Self::accumulates(
                    if read_dst {
                        Some(cell2(old(dst)@, n as int, i, j))
                    } else {
                        None
                    },
                    strided(lhs@, i * lhs_rs, lhs_cs as int, k as int),
                    strided(rhs@, j * rhs_cs, rhs_rs as int, k as int),
                    #[trigger] cell2(final(dst)@, n as int, i, j),
                ),
    ;
}

} // verus!
