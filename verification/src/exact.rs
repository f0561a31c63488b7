//! Arithmetic without rounding: what the laws over the reals speak of.
use crate::scalar::Scalar;
use crate::vector::{products, sum_from};
use vstd::prelude::*;

verus! {

/// Whether `val` says what real number each number stands for, and every
/// operation is exact.  On terms, such a `val` evaluates the expression.
pub open spec fn exact<E: Scalar>(val: spec_fn(E) -> real) -> bool {
    &&& val(E::zero_spec()) == 0 as real
    &&& val(E::one_spec()) == 1 as real
    &&& val(E::empty_sum_spec()) == 0 as real
    &&& forall|n: usize| val(#[trigger] E::count_spec(n)) == (n as int) as real
    &&& forall|a: E, b: E| val(#[trigger] a.plus_spec(b)) == val(a) + val(b)
    &&& forall|a: E, b: E| val(#[trigger] a.minus_spec(b)) == val(a) - val(b)
    &&& forall|a: E, b: E| val(#[trigger] a.times_spec(b)) == val(a) * val(b)
    &&& forall|a: E, b: E|
        val(b) != 0 as real ==> val(#[trigger] a.over_spec(b)) == val(a) / val(b)
    &&& forall|a: E| val(#[trigger] a.exp_spec()) > 0 as real
    &&& forall|a: E|
        val(a) > 0 as real ==> {
            let root = val(#[trigger] a.rsqrt_spec());
            root > 0 as real && root * root * val(a) == 1 as real
        }
    &&& forall|start: Option<E>, lhs: Seq<E>, rhs: Seq<E>, out: E| #[trigger]
        E::accumulates(start, lhs, rhs, out) && lhs.len() == rhs.len() ==> val(out) == start_value(
            val,
            start,
        ) + total(values(val, products(lhs, rhs)))
}

/// What is added to where there is a start, and zero elsewhere.
pub open spec fn start_value<E: Scalar>(val: spec_fn(E) -> real, start: Option<E>) -> real {
    match start {
        Some(start) => val(start),
        None => 0 as real,
    }
}

/// The real numbers that these stand for.
pub open spec fn values<E: Scalar>(val: spec_fn(E) -> real, xs: Seq<E>) -> Seq<real> {
    Seq::new(xs.len(), |i: int| val(xs[i]))
}

/// The sum of real numbers.
pub open spec fn total(xs: Seq<real>) -> real
    decreases xs.len(),
{
    if xs.len() == 0 {
        0 as real
    } else {
        total(xs.drop_last()) + xs.last()
    }
}

/// Exact numbers add up to the sum of what they stand for.
pub proof fn lemma_exact_sum<E: Scalar>(val: spec_fn(E) -> real, start: E, xs: Seq<E>)
    requires
        exact(val),
    ensures
        val(sum_from(start, xs)) == val(start) + total(values(val, xs)),
    decreases xs.len(),
{
    if xs.len() > 0 {
        lemma_exact_sum(val, start, xs.drop_last());
        assert(values(val, xs).drop_last() =~= values(val, xs.drop_last()));
    }
}

/// A product with a sum.
pub proof fn lemma_distribute(a: real, b: real, c: real)
    by (nonlinear_arith)
    ensures
        a * (b + c) == a * b + a * c,
{
}

/// A product with a difference.
pub proof fn lemma_distribute_back(a: real, b: real, c: real)
    by (nonlinear_arith)
    ensures
        a * (b - c) == a * b - a * c,
{
}

/// The factors of a product change places.
pub proof fn lemma_commute(a: real, b: real)
    by (nonlinear_arith)
    ensures
        a * b == b * a,
{
}

/// The factors of a product of three are taken together.
pub proof fn lemma_associate(a: real, b: real, c: real)
    by (nonlinear_arith)
    ensures
        a * b * c == a * (b * c),
{
}

/// The sign of a factor is the sign of the product.
pub proof fn lemma_negate(a: real, b: real)
    by (nonlinear_arith)
    ensures
        (-a) * b == -(a * b),
{
}

/// A product of positive numbers is positive.
pub proof fn lemma_positive(a: real, b: real)
    by (nonlinear_arith)
    requires
        a > 0 as real,
        b > 0 as real,
    ensures
        a * b > 0 as real,
{
}

/// A square is not negative.
pub proof fn lemma_square(a: real)
    by (nonlinear_arith)
    ensures
        a * a >= 0 as real,
{
}

/// A quotient times its divisor.
pub proof fn lemma_quotient(a: real, n: real)
    by (nonlinear_arith)
    requires
        n != 0 as real,
    ensures
        a / n * n == a,
{
}

/// Two numbers are the same where their products with a third are.
pub proof fn lemma_cancel(a: real, b: real, n: real)
    requires
        n != 0 as real,
        a * n == b * n,
    ensures
        a == b,
{
    let c = a - b;
    assert(c * n == a * n - b * n) by {
        lemma_commute(c, n);
        lemma_commute(a, n);
        lemma_commute(b, n);
        lemma_distribute_back(n, a, b);
    }
    if c > 0 as real && n > 0 as real {
        lemma_positive(c, n);
    } else if c > 0 as real && n < 0 as real {
        lemma_positive(c, -n);
        lemma_commute(c, -n);
        lemma_commute(c, n);
        lemma_negate(n, c);
    } else if c < 0 as real && n > 0 as real {
        lemma_positive(-c, n);
        lemma_negate(c, n);
    } else if c < 0 as real && n < 0 as real {
        lemma_positive(-c, -n);
        lemma_negate(c, -n);
        lemma_commute(c, -n);
        lemma_commute(c, n);
        lemma_negate(n, c);
    }
}

/// A number that a product with the divisor gives back is the quotient.
pub proof fn lemma_is_quotient(a: real, n: real, c: real)
    requires
        n != 0 as real,
        c * n == a,
    ensures
        a / n == c,
{
    lemma_quotient(a, n);
    lemma_cancel(a / n, c, n);
}

/// Dividing by a positive number is multiplying by its inverse, which is positive.
pub proof fn lemma_inverse(e: real, t: real)
    requires
        t > 0 as real,
    ensures
        (1 as real) / t > 0 as real,
        (1 as real) / t * t == 1 as real,
        e / t == (1 as real) / t * e,
        e > 0 as real ==> e / t > 0 as real,
{
    let i = (1 as real) / t;
    lemma_quotient(1 as real, t);
    if i < 0 as real {
        lemma_positive(-i, t);
        lemma_negate(i, t);
    }
    if i == 0 as real {
        assert(i * t == (0 as real) * t);
    }
    lemma_associate(i, e, t);
    lemma_commute(e, t);
    lemma_associate(i, t, e);
    assert(i * t * e == (1 as real) * e);
    lemma_is_quotient(e, t, i * e);
    if e > 0 as real {
        lemma_positive(i, e);
    }
}

/// The sum of sums.
proof fn lemma_total_sums(xs: Seq<real>, ys: Seq<real>, zs: Seq<real>)
    requires
        xs.len() == zs.len(),
        ys.len() == zs.len(),
        forall|i: int| 0 <= i < zs.len() ==> #[trigger] zs[i] == xs[i] + ys[i],
    ensures
        total(zs) == total(xs) + total(ys),
    decreases zs.len(),
{
    if zs.len() > 0 {
        lemma_total_sums(xs.drop_last(), ys.drop_last(), zs.drop_last());
    }
}

/// The sum of multiples.
proof fn lemma_total_scaled(a: real, xs: Seq<real>)
    ensures
        total(Seq::new(xs.len(), |i: int| a * xs[i])) == a * total(xs),
    decreases xs.len(),
{
    let zs = Seq::new(xs.len(), |i: int| a * xs[i]);
    if xs.len() > 0 {
        let fewer = xs.drop_last();
        lemma_total_scaled(a, fewer);
        assert(zs.drop_last() =~= Seq::new(fewer.len(), |i: int| a * fewer[i]));
        lemma_distribute(a, total(fewer), xs.last());
    }
}

/// The sum of equal numbers.
proof fn lemma_total_repeated(c: real, n: nat)
    ensures
        total(Seq::new(n, |i: int| c)) == c * (n as int as real),
    decreases n,
{
    let zs = Seq::new(n, |i: int| c);
    if n > 0 {
        let fewer = (n - 1) as nat;
        lemma_total_repeated(c, fewer);
        assert(zs.drop_last() =~= Seq::new(fewer, |i: int| c));
        let (k, m) = (n as int as real, fewer as int as real);
        assert(k == m + 1 as real);
        lemma_distribute(c, m, 1 as real);
        assert(c * k == c * (m + 1 as real));
        assert(zs.last() == c);
    } else {
        assert(n as int as real == 0 as real);
        assert(c * (n as int as real) == c * (0 as real));
    }
}

/// The sum of combinations is the combination of the sums.
pub proof fn lemma_total_combined(
    xs: Seq<real>,
    ys: Seq<real>,
    zs: Seq<real>,
    a: real,
    b: real,
    c: real,
)
    requires
        xs.len() == zs.len(),
        ys.len() == zs.len(),
        forall|i: int| 0 <= i < zs.len() ==> #[trigger] zs[i] == a * xs[i] + b * ys[i] + c,
    ensures
        total(zs) == a * total(xs) + b * total(ys) + c * (zs.len() as int as real),
{
    let axs = Seq::new(xs.len(), |i: int| a * xs[i]);
    let bys = Seq::new(ys.len(), |i: int| b * ys[i]);
    let both = Seq::new(zs.len(), |i: int| axs[i] + bys[i]);
    let cs = Seq::new(zs.len(), |i: int| c);
    lemma_total_scaled(a, xs);
    lemma_total_scaled(b, ys);
    lemma_total_repeated(c, zs.len());
    lemma_total_sums(axs, bys, both);
    lemma_total_sums(both, cs, zs);
}

/// A sum of numbers that are not negative is not negative; it is positive where
/// all are, and there is one.
pub proof fn lemma_total_sign(xs: Seq<real>)
    requires
        forall|i: int| 0 <= i < xs.len() ==> #[trigger] xs[i] >= 0 as real,
    ensures
        total(xs) >= 0 as real,
        xs.len() > 0 && (forall|i: int| 0 <= i < xs.len() ==> #[trigger] xs[i] > 0 as real)
            ==> total(xs) > 0 as real,
    decreases xs.len(),
{
    if xs.len() > 0 {
        lemma_total_sign(xs.drop_last());
        assert(xs.last() == xs[xs.len() - 1]);
    }
}

/// The sum of two lists, one behind the other.
pub proof fn lemma_total_joined(xs: Seq<real>, ys: Seq<real>)
    ensures
        total(xs + ys) == total(xs) + total(ys),
    decreases ys.len(),
{
    if ys.len() > 0 {
        lemma_total_joined(xs, ys.drop_last());
        assert((xs + ys).drop_last() =~= xs + ys.drop_last());
    } else {
        assert(xs + ys =~= xs);
    }
}

/// Zeros add up to zero.
pub proof fn lemma_total_zeros(xs: Seq<real>)
    requires
        forall|i: int| 0 <= i < xs.len() ==> #[trigger] xs[i] == 0 as real,
    ensures
        total(xs) == 0 as real,
    decreases xs.len(),
{
    if xs.len() > 0 {
        lemma_total_zeros(xs.drop_last());
    }
}

/// A single number among zeros is their sum.
pub proof fn lemma_total_single(xs: Seq<real>, at: int, x: real)
    requires
        0 <= at < xs.len(),
        forall|i: int|
            0 <= i < xs.len() ==> #[trigger] xs[i] == if i == at {
                x
            } else {
                0 as real
            },
    ensures
        total(xs) == x,
    decreases xs.len(),
{
    if at == xs.len() - 1 {
        lemma_total_zeros(xs.drop_last());
    } else {
        lemma_total_single(xs.drop_last(), at, x);
    }
}

/// The sum of `f(0)` to `f(n - 1)`.
pub open spec fn sum_of(n: int, f: spec_fn(int) -> real) -> real {
    total(Seq::new(n as nat, f))
}

/// A sum of no numbers is zero, and one number more adds that number.
pub proof fn law_sum_grows(n: int, f: spec_fn(int) -> real)
    requires
        0 <= n,
    ensures
        sum_of(0, f) == 0 as real,
        sum_of(n + 1, f) == sum_of(n, f) + f(n),
{
    let more = Seq::new((n + 1) as nat, f);
    assert(more.drop_last() =~= Seq::new(n as nat, f));
    assert(more.last() == f(n));
}

/// Equal terms have equal sums.
pub proof fn lemma_sum_same(n: int, f: spec_fn(int) -> real, g: spec_fn(int) -> real)
    requires
        0 <= n,
        forall|i: int| 0 <= i < n ==> #[trigger] f(i) == g(i),
    ensures
        sum_of(n, f) == sum_of(n, g),
{
    assert(Seq::new(n as nat, f) =~= Seq::new(n as nat, g));
}

/// A factor of all terms is a factor of the sum.
pub proof fn lemma_sum_scaled(n: int, a: real, f: spec_fn(int) -> real)
    ensures
        sum_of(n, |i: int| a * f(i)) == a * sum_of(n, f),
{
    let xs = Seq::new(n as nat, f);
    lemma_total_scaled(a, xs);
    assert(Seq::new(xs.len(), |i: int| a * xs[i]) =~= Seq::new(n as nat, |i: int| a * f(i)));
}

/// Sums of sums.
pub proof fn lemma_sum_plus(n: int, f: spec_fn(int) -> real, g: spec_fn(int) -> real)
    ensures
        sum_of(n, |i: int| f(i) + g(i)) == sum_of(n, f) + sum_of(n, g),
{
    lemma_total_sums(
        Seq::new(n as nat, f),
        Seq::new(n as nat, g),
        Seq::new(n as nat, |i: int| f(i) + g(i)),
    );
}

/// A list of terms and the function that gives them have the same sum.
pub proof fn lemma_total_is_sum(xs: Seq<real>, f: spec_fn(int) -> real)
    requires
        forall|i: int| 0 <= i < xs.len() ==> #[trigger] xs[i] == f(i),
    ensures
        total(xs) == sum_of(xs.len() as int, f),
{
    assert(xs =~= Seq::new(xs.len(), f));
}

/// Exact numbers add up to the sum of what they stand for.
pub proof fn lemma_exact_terms<E: Scalar>(
    val: spec_fn(E) -> real,
    start: E,
    xs: Seq<E>,
    f: spec_fn(int) -> real,
)
    requires
        exact(val),
        forall|i: int| 0 <= i < xs.len() ==> #[trigger] val(xs[i]) == f(i),
    ensures
        val(sum_from(start, xs)) == val(start) + sum_of(xs.len() as int, f),
{
    lemma_exact_sum(val, start, xs);
    let vs = values(val, xs);
    assert forall|i: int| 0 <= i < vs.len() implies #[trigger] vs[i] == f(i) by {
        assert(val(xs[i]) == f(i));
    }
    lemma_total_is_sum(vs, f);
}

/// Whether exponential, logarithm, sign and maxima are those of the reals, too.
/// The exponential is any one that turns sums into products and grows.
#[verifier::opaque]
pub open spec fn smooth<E: Scalar>(val: spec_fn(E) -> real) -> bool {
    &&& forall|a: E, b: E, c: E|
        #![trigger a.exp_spec(), b.exp_spec(), c.exp_spec()]
        val(c) == val(a) + val(b) ==> val(c.exp_spec()) == val(a.exp_spec()) * val(b.exp_spec())
    &&& forall|a: E, b: E|
        #![trigger a.exp_spec(), b.exp_spec()]
        val(a) < val(b) ==> val(a.exp_spec()) < val(b.exp_spec())
    &&& forall|a: E, b: E|
        #![trigger a.exp_spec(), b.exp_spec()]
        val(a) == val(b) ==> val(a.exp_spec()) == val(b.exp_spec())
    &&& forall|a: E| val(#[trigger] a.negated_spec()) == -val(a)
    &&& forall|a: E| val(a) > 0 as real ==> val((#[trigger] a.ln_spec()).exp_spec()) == val(a)
    &&& forall|a: E, b: E|
        {
            let m = #[trigger] a.total_max_spec(b);
            &&& val(m) == val(a) || val(m) == val(b)
            &&& val(a) <= val(m)
            &&& val(b) <= val(m)
        }
    &&& forall|a: E, b: E|
        a != E::bottom_spec() ==> {
            let m = #[trigger] a.raised_spec(b);
            &&& val(m) == val(a) || val(m) == val(b)
            &&& val(a) <= val(m)
            &&& val(b) <= val(m)
        }
    &&& forall|b: E| val(#[trigger] E::bottom_spec().raised_spec(b)) == val(b)
    &&& forall|a: E, b: E|
        b != E::bottom_spec() ==> #[trigger] a.raised_spec(b) != E::bottom_spec()
}

/// The exponential of a sum.
pub proof fn lemma_exp_sum<E: Scalar>(val: spec_fn(E) -> real, a: E, b: E, c: E)
    requires
        smooth(val),
        val(c) == val(a) + val(b),
    ensures
        val(c.exp_spec()) == val(a.exp_spec()) * val(b.exp_spec()),
{
    reveal(smooth);
}

/// The exponential grows.
pub proof fn lemma_exp_order<E: Scalar>(val: spec_fn(E) -> real, a: E, b: E)
    requires
        smooth(val),
    ensures
        val(a) < val(b) ==> val(a.exp_spec()) < val(b.exp_spec()),
        val(a) == val(b) ==> val(a.exp_spec()) == val(b.exp_spec()),
{
    reveal(smooth);
}

/// The exponential of what a logarithm with its sign changed stands for is the
/// inverse of the number.
pub proof fn lemma_ln_negated<E: Scalar>(val: spec_fn(E) -> real, a: E, zero: E)
    requires
        exact(val),
        smooth(val),
        val(a) > 0 as real,
        val(zero) == 0 as real,
    ensures
        val(a.ln_spec().negated_spec().exp_spec()) * val(a) == 1 as real,
{
    reveal(smooth);
    let (l, n) = (a.ln_spec(), a.ln_spec().negated_spec());
    lemma_exp_sum(val, zero, zero, zero);
    lemma_exp_sum(val, n, l, zero);
    let e = val(zero.exp_spec());
    assert(e > 0 as real);
    assert(e == e * e);
    lemma_cancel(e, 1 as real, e);
}

/// The greater of two numbers is one of them, and neither is greater.
pub proof fn lemma_total_max<E: Scalar>(val: spec_fn(E) -> real, a: E, b: E)
    requires
        smooth(val),
    ensures
        val(a.total_max_spec(b)) == val(a) || val(a.total_max_spec(b)) == val(b),
        val(a) <= val(a.total_max_spec(b)),
        val(b) <= val(a.total_max_spec(b)),
{
    reveal(smooth);
}

/// A number raised to another is one of them, and neither is greater, but for the
/// bottom, which is below all.
pub proof fn lemma_raised<E: Scalar>(val: spec_fn(E) -> real, a: E, b: E)
    requires
        smooth(val),
    ensures
        a == E::bottom_spec() ==> val(a.raised_spec(b)) == val(b),
        a != E::bottom_spec() ==> {
            &&& val(a.raised_spec(b)) == val(a) || val(a.raised_spec(b)) == val(b)
            &&& val(a) <= val(a.raised_spec(b))
        },
        val(b) <= val(a.raised_spec(b)),
        b != E::bottom_spec() ==> a.raised_spec(b) != E::bottom_spec(),
{
    reveal(smooth);
}

/// A sum of positive terms is positive where there is one.
pub proof fn lemma_sum_positive(n: int, f: spec_fn(int) -> real)
    requires
        0 < n,
        forall|i: int| 0 <= i < n ==> #[trigger] f(i) > 0 as real,
    ensures
        sum_of(n, f) > 0 as real,
    decreases n,
{
    law_sum_grows(n - 1, f);
    assert(f(n - 1) > 0 as real);
    if n > 1 {
        lemma_sum_positive(n - 1, f);
    }
}

/// Products with the same positive factor are in the order of the others.
pub proof fn lemma_greater(a: real, b: real, c: real)
    requires
        c > 0 as real,
        a * c < b * c,
    ensures
        a < b,
{
    if b < a {
        lemma_positive(a - b, c);
        lemma_commute(a - b, c);
        lemma_distribute_back(c, a, b);
        lemma_commute(c, a);
        lemma_commute(c, b);
    }
}

} // verus!
