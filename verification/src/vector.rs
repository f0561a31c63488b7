//! Sequences of numbers: segments, sums, and element-wise operations.
use crate::scalar::Scalar;
use vstd::prelude::*;

verus! {

/// The terms of `xs` added to `start` one after the other, first to last.
pub open spec fn sum_from<E: Scalar>(start: E, xs: Seq<E>) -> E
    decreases xs.len(),
{
    if xs.len() == 0 {
        start
    } else {
        sum_from(start, xs.drop_last()).plus_spec(xs.last())
    }
}

/// Row `r` of a dense row-major matrix with `d` columns.
pub open spec fn row<T>(cells: Seq<T>, d: int, r: int) -> Seq<T> {
    cells.subrange(r * d, r * d + d)
}

/// The first `n` rows of a dense row-major matrix with `d` columns.
pub open spec fn rows_of<T>(cells: Seq<T>, d: int, n: int) -> Seq<Seq<T>> {
    Seq::new(n as nat, |r: int| row(cells, d, r))
}

/// `cells` with `values` in place of the elements from `at` on.
pub open spec fn overwritten<T>(cells: Seq<T>, at: int, values: Seq<T>) -> Seq<T> {
    Seq::new(
        cells.len(),
        |c: int|
            if at <= c < at + values.len() {
                values[c - at]
            } else {
                cells[c]
            },
    )
}

/// `cells` with `values` added to the elements from `at` on.
pub open spec fn accumulated<E: Scalar>(cells: Seq<E>, at: int, values: Seq<E>) -> Seq<E> {
    Seq::new(
        cells.len(),
        |c: int|
            if at <= c < at + values.len() {
                cells[c].plus_spec(values[c - at])
            } else {
                cells[c]
            },
    )
}

/// The element-wise product.
pub open spec fn products<E: Scalar>(a: Seq<E>, b: Seq<E>) -> Seq<E> {
    Seq::new(a.len(), |i: int| a[i].times_spec(b[i]))
}

/// Every element times `c`, the element first.
pub open spec fn scaled<E: Scalar>(a: Seq<E>, c: E) -> Seq<E> {
    Seq::new(a.len(), |i: int| a[i].times_spec(c))
}

/// The exponentials of `xs` below `top`.
pub open spec fn exponentials<E: Scalar>(xs: Seq<E>, top: E) -> Seq<E> {
    Seq::new(xs.len(), |i: int| xs[i].minus_spec(top).exp_spec())
}

/// `start` with all `rows` added to it, first to last.
pub open spec fn summed<E: Scalar>(start: Seq<E>, rows: Seq<Seq<E>>) -> Seq<E> {
    Seq::new(
        start.len(),
        |i: int| sum_from(start[i], Seq::new(rows.len(), |r: int| rows[r][i])),
    )
}

/// `n` zeros.
pub open spec fn zeros<E: Scalar>(n: int) -> Seq<E> {
    Seq::new(n as nat, |i: int| E::zero_spec())
}

/// Adding one row more.
pub proof fn lemma_summed_push<E: Scalar>(start: Seq<E>, rows: Seq<Seq<E>>, next: Seq<E>)
    requires
        next.len() == start.len(),
    ensures
        summed(start, rows.push(next)) == accumulated(summed(start, rows), 0, next),
{
    let more = rows.push(next);
    let goal = accumulated(summed(start, rows), 0, next);
    assert forall|i: int| 0 <= i < start.len() implies #[trigger] summed(start, more)[i] == goal[i]
        by {
        let column = Seq::new(more.len(), |r: int| more[r][i]);
        assert(column.drop_last() =~= Seq::new(rows.len(), |r: int| rows[r][i]));
    }
    assert(summed(start, more) =~= goal);
}

/// Adding no row.
pub proof fn lemma_summed_none<E: Scalar>(start: Seq<E>)
    ensures
        summed(start, Seq::empty()) == start,
{
    assert(summed(start, Seq::empty()) =~= start);
}

/// A row of a matrix with `d` columns ends where the next one starts, or before.
pub proof fn lemma_rows_apart(r1: int, r2: int, d: int)
    requires
        0 <= r1 < r2,
        0 <= d,
    ensures
        0 <= r1 * d,
        r1 * d + d <= r2 * d,
{
    assert(0 <= r1 * d && r1 * d + d <= r2 * d) by (nonlinear_arith)
        requires
            0 <= r1 < r2,
            0 <= d,
    ;
}

/// Two pairs of row and column have the same place only where they are the same.
pub proof fn lemma_places_apart(i1: int, j1: int, i2: int, j2: int, n: int)
    requires
        0 <= i1,
        0 <= i2,
        0 <= j1 < n,
        0 <= j2 < n,
        i1 * n + j1 == i2 * n + j2,
    ensures
        i1 == i2,
        j1 == j2,
{
    if i1 < i2 {
        lemma_rows_apart(i1, i2, n);
    } else if i2 < i1 {
        lemma_rows_apart(i2, i1, n);
    }
}

/// A place in a matrix of `m` rows and `n` columns lies before its end.
pub proof fn lemma_place_bound(i: int, j: int, m: int, n: int)
    requires
        0 <= i < m,
        0 <= j < n,
    ensures
        0 <= i * n,
        0 <= i * n + j < m * n,
{
    lemma_rows_apart(i, m, n);
}

/// Overwriting leaves a segment alone that it does not reach.
pub proof fn lemma_overwritten_elsewhere<T>(
    cells: Seq<T>,
    at: int,
    values: Seq<T>,
    start: int,
    end: int,
)
    requires
        0 <= start <= end <= cells.len(),
        end <= at || at + values.len() <= start,
    ensures
        overwritten(cells, at, values).subrange(start, end) == cells.subrange(start, end),
{
    assert(overwritten(cells, at, values).subrange(start, end) =~= cells.subrange(start, end));
}

/// Overwriting a segment sets it.
pub proof fn lemma_overwritten_here<T>(cells: Seq<T>, at: int, values: Seq<T>)
    requires
        0 <= at,
        at + values.len() <= cells.len(),
    ensures
        overwritten(cells, at, values).subrange(at, at + values.len()) == values,
{
    assert(overwritten(cells, at, values).subrange(at, at + values.len()) =~= values);
}

/// Overwriting row `r` sets that row and keeps every other one.
pub proof fn lemma_overwritten_row<T>(cells: Seq<T>, d: int, r: int, n: int, values: Seq<T>)
    requires
        0 <= r < n,
        0 <= d,
        cells.len() == n * d,
        values.len() == d,
    ensures
        overwritten(cells, r * d, values).len() == cells.len(),
        row(overwritten(cells, r * d, values), d, r) == values,
        forall|r2: int|
            0 <= r2 < n && r2 != r ==> #[trigger] row(overwritten(cells, r * d, values), d, r2)
                == row(cells, d, r2),
{
    lemma_rows_apart(r, n, d);
    let after = overwritten(cells, r * d, values);
    assert(row(after, d, r) =~= values);
    assert forall|r2: int| 0 <= r2 < n && r2 != r implies #[trigger] row(after, d, r2) == row(
        cells,
        d,
        r2,
    ) by {
        lemma_rows_apart(r2, n, d);
        if r2 < r {
            lemma_rows_apart(r2, r, d);
        } else {
            lemma_rows_apart(r, r2, d);
        }
        assert(row(after, d, r2) =~= row(cells, d, r2));
    }
}

/// Accumulating into row `r` adds to that row and keeps every other one.
pub proof fn lemma_accumulated_row<E: Scalar>(
    cells: Seq<E>,
    d: int,
    r: int,
    n: int,
    values: Seq<E>,
)
    requires
        0 <= r < n,
        0 <= d,
        cells.len() == n * d,
        values.len() == d,
    ensures
        accumulated(cells, r * d, values).len() == cells.len(),
        row(accumulated(cells, r * d, values), d, r) == accumulated(row(cells, d, r), 0, values),
        forall|r2: int|
            0 <= r2 < n && r2 != r ==> #[trigger] row(accumulated(cells, r * d, values), d, r2)
                == row(cells, d, r2),
{
    lemma_rows_apart(r, n, d);
    let after = accumulated(cells, r * d, values);
    assert(row(after, d, r) =~= accumulated(row(cells, d, r), 0, values));
    assert forall|r2: int| 0 <= r2 < n && r2 != r implies #[trigger] row(after, d, r2) == row(
        cells,
        d,
        r2,
    ) by {
        lemma_rows_apart(r2, n, d);
        if r2 < r {
            lemma_rows_apart(r2, r, d);
        } else {
            lemma_rows_apart(r, r2, d);
        }
        assert(row(after, d, r2) =~= row(cells, d, r2));
    }
}

/// Adds the terms of `xs` to `start`, first to last.
pub fn sum<E: Scalar>(start: E, xs: &Vec<E>) -> (r: E)
    ensures
        r == sum_from(start, xs@),
{
    let mut acc = start;
    let mut i: usize = 0;
    while i < xs.len()
        invariant
            i <= xs.len(),
            acc == sum_from(start, xs@.take(i as int)),
        decreases xs.len() - i,
    {
        acc = acc.plus(&xs[i]);
        i += 1;
        assert(xs@.take(i as int).drop_last() =~= xs@.take(i - 1));
    }
    assert(xs@.take(i as int) =~= xs@);
    acc
}

/// Returns `n` zeros.
pub fn zero_vec<E: Scalar>(n: usize) -> (r: Vec<E>)
    ensures
        r@ == zeros::<E>(n as int),
{
    let mut r: Vec<E> = Vec::new();
    while r.len() < n
        invariant
            r.len() <= n,
            forall|i: int| 0 <= i < r.len() ==> r@[i] == E::zero_spec(),
        decreases n - r.len(),
    {
        r.push(E::zero());
    }
    assert(r@ =~= zeros::<E>(n as int));
    r
}

/// Copies `len` elements, starting at `at`.
pub fn segment<E: Scalar>(cells: &Vec<E>, at: usize, len: usize) -> (r: Vec<E>)
    requires
        at + len <= cells.len(),
    ensures
        r@ == cells@.subrange(at as int, at + len),
{
    let mut r: Vec<E> = Vec::new();
    while r.len() < len
        invariant
            r.len() <= len,
            at + len <= cells.len(),
            forall|i: int| 0 <= i < r.len() ==> r@[i] == cells@[at + i],
        decreases len - r.len(),
    {
        r.push(cells[at + r.len()].copy());
    }
    assert(r@ =~= cells@.subrange(at as int, at + len));
    r
}

/// Replaces the elements from `at` on by `values`.
pub fn overwrite<E: Scalar>(cells: &mut Vec<E>, at: usize, values: &Vec<E>)
    requires
        at + values.len() <= old(cells).len(),
    ensures
        final(cells)@ == overwritten(old(cells)@, at as int, values@),
{
    let ghost before = cells@;
    let mut i: usize = 0;
    while i < values.len()
        invariant
            i <= values.len(),
            cells@.len() == before.len(),
            at + values.len() <= cells.len(),
            forall|c: int|
                0 <= c < before.len() ==> #[trigger] cells@[c] == if at <= c < at + i {
                    values@[c - at]
                } else {
                    before[c]
                },
        decreases values.len() - i,
    {
        cells.set(at + i, values[i].copy());
        i += 1;
    }
    assert(cells@ =~= overwritten(before, at as int, values@));
}

/// Adds `values` to the elements from `at` on.
pub fn accumulate<E: Scalar>(cells: &mut Vec<E>, at: usize, values: &Vec<E>)
    requires
        at + values.len() <= old(cells).len(),
    ensures
        final(cells)@ == accumulated(old(cells)@, at as int, values@),
{
    let ghost before = cells@;
    let mut i: usize = 0;
    while i < values.len()
        invariant
            i <= values.len(),
            cells@.len() == before.len(),
            at + values.len() <= cells.len(),
            forall|c: int|
                0 <= c < before.len() ==> #[trigger] cells@[c] == if at <= c < at + i {
                    before[c].plus_spec(values@[c - at])
                } else {
                    before[c]
                },
        decreases values.len() - i,
    {
        let v = cells[at + i].plus(&values[i]);
        cells.set(at + i, v);
        i += 1;
    }
    assert(cells@ =~= accumulated(before, at as int, values@));
}

/// Multiplies element by element.
pub fn multiply<E: Scalar>(a: &Vec<E>, b: &Vec<E>) -> (r: Vec<E>)
    requires
        a.len() == b.len(),
    ensures
        r@ == products(a@, b@),
{
    let mut r: Vec<E> = Vec::new();
    while r.len() < a.len()
        invariant
            r.len() <= a.len(),
            a.len() == b.len(),
            forall|i: int| 0 <= i < r.len() ==> #[trigger] r@[i] == a@[i].times_spec(b@[i]),
        decreases a.len() - r.len(),
    {
        let i: usize = r.len();
        r.push(a[i].times(&b[i]));
    }
    assert(r@ =~= products(a@, b@));
    r
}

/// Multiplies every element by `c`.
pub fn scale<E: Scalar>(a: &Vec<E>, c: &E) -> (r: Vec<E>)
    ensures
        r@ == scaled(a@, *c),
{
    let mut r: Vec<E> = Vec::new();
    while r.len() < a.len()
        invariant
            r.len() <= a.len(),
            forall|i: int| 0 <= i < r.len() ==> #[trigger] r@[i] == a@[i].times_spec(*c),
        decreases a.len() - r.len(),
    {
        let i: usize = r.len();
        r.push(a[i].times(c));
    }
    assert(r@ =~= scaled(a@, *c));
    r
}

/// Takes the exponentials of `xs` below `top`.
pub fn exponentiate<E: Scalar>(xs: &Vec<E>, top: &E) -> (r: Vec<E>)
    ensures
        r@ == exponentials(xs@, *top),
{
    let mut r: Vec<E> = Vec::new();
    while r.len() < xs.len()
        invariant
            r.len() <= xs.len(),
            forall|i: int|
                0 <= i < r.len() ==> #[trigger] r@[i] == xs@[i].minus_spec(*top).exp_spec(),
        decreases xs.len() - r.len(),
    {
        let i: usize = r.len();
        r.push(xs[i].minus(top).exp());
    }
    assert(r@ =~= exponentials(xs@, *top));
    r
}

/// Rows can be added in parts: first some, then the others.
pub proof fn law_summed_in_parts<E: Scalar>(start: Seq<E>, first: Seq<Seq<E>>, second: Seq<Seq<E>>)
    requires
        forall|r: int| 0 <= r < first.len() ==> (#[trigger] first[r]).len() == start.len(),
        forall|r: int| 0 <= r < second.len() ==> (#[trigger] second[r]).len() == start.len(),
    ensures
        summed(summed(start, first), second) == summed(start, first + second),
    decreases second.len(),
{
    if second.len() == 0 {
        assert(first + second =~= first);
        assert(second =~= Seq::empty());
        lemma_summed_none(summed(start, first));
    } else {
        let (rest, last) = (second.drop_last(), second.last());
        law_summed_in_parts(start, first, rest);
        lemma_summed_push(start, first + rest, last);
        lemma_summed_push(summed(start, first), rest, last);
        assert((first + rest).push(last) =~= first + second);
        assert(rest.push(last) =~= second);
    }
}

/// Adding up: nothing adds nothing, and one number more is added last.
pub proof fn law_sum<E: Scalar>(start: E, xs: Seq<E>, x: E)
    ensures
        sum_from(start, Seq::empty()) == start,
        sum_from(start, xs.push(x)) == sum_from(start, xs).plus_spec(x),
{
    assert(xs.push(x).drop_last() =~= xs);
}

/// Rows lie one behind the other.
pub proof fn law_row_cells<T>(cells: Seq<T>, d: int, r: int, n: int, i: int)
    requires
        0 <= r < n,
        0 <= i < d,
        cells.len() == n * d,
    ensures
        row(cells, d, r).len() == d,
        row(cells, d, r)[i] == cells[r * d + i],
        rows_of(cells, d, n).len() == n,
        rows_of(cells, d, n)[r] == row(cells, d, r),
{
    lemma_rows_apart(r, n, d);
}

/// Writing or adding a row changes the cells that it covers, each by its own number,
/// and no other.
pub proof fn law_covered_cells<E: Scalar>(cells: Seq<E>, at: int, values: Seq<E>, c: int)
    requires
        0 <= at,
        at + values.len() <= cells.len(),
        0 <= c < cells.len(),
    ensures
        overwritten(cells, at, values).len() == cells.len(),
        accumulated(cells, at, values).len() == cells.len(),
        at <= c < at + values.len() ==> overwritten(cells, at, values)[c] == values[c - at],
        at <= c < at + values.len() ==> accumulated(cells, at, values)[c] == cells[c].plus_spec(
            values[c - at],
        ),
        c < at || at + values.len() <= c ==> overwritten(cells, at, values)[c] == cells[c],
        c < at || at + values.len() <= c ==> accumulated(cells, at, values)[c] == cells[c],
{
}

/// Products, multiples and exponentials are taken number by number.
pub proof fn law_number_by_number<E: Scalar>(a: Seq<E>, b: Seq<E>, c: E, i: int)
    requires
        a.len() == b.len(),
        0 <= i < a.len(),
    ensures
        products(a, b).len() == a.len(),
        scaled(a, c).len() == a.len(),
        exponentials(a, c).len() == a.len(),
        products(a, b)[i] == a[i].times_spec(b[i]),
        scaled(a, c)[i] == a[i].times_spec(c),
        exponentials(a, c)[i] == a[i].minus_spec(c).exp_spec(),
{
}

} // verus!
