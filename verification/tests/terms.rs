//! What the results of the kernels are made of.
use llm_nn::nn::attention::backward::backward as attend_back;
use llm_nn::nn::attention::forward::forward as attend;
use llm_nn::nn::embedding::backward::embedding as scatter;
use llm_nn::nn::embedding::forward::embedding as gather;
use llm_nn::nn::{layer_norm, linear, loss};
use llm_nn::scalar::Scalar;
use llm_nn::tensor::Tensor;
use llm_nn::term::Term;

fn g(i: usize) -> Term {
    Term::Given(i)
}

fn given(shape: Vec<usize>, first: usize) -> Tensor<Term> {
    let n: usize = shape.iter().product();
    Tensor::from_reals(shape, (first..first + n).map(g).collect()).unwrap()
}

fn zeros(shape: Vec<usize>) -> Tensor<Term> {
    let n: usize = shape.iter().product();
    Tensor::from_reals(shape, (0..n).map(|_| Term::Zero).collect()).unwrap()
}

fn tokens(shape: Vec<usize>, tokens: Vec<u16>) -> Tensor<Term> {
    Tensor::from_tokens(shape, tokens).unwrap()
}

fn sum(start: Term, terms: Vec<Term>) -> Term {
    terms.iter().fold(start, |sum, term| sum.plus(term))
}

#[test]
fn rows_are_normalised() {
    let (mut y, mut mean, mut rstd) = (zeros(vec![1, 1, 2]), zeros(vec![1, 1]), zeros(vec![1, 1]));
    let (x, w, b) = (given(vec![1, 1, 2], 0), given(vec![2], 2), given(vec![2], 4));
    layer_norm::forward(&mut y, &mut mean, &mut rstd, &x, &w, &b);

    let two = Term::Count(2);
    let epsilon = Term::One.over(&Term::Count(100_000));
    let m = sum(Term::Zero, vec![g(0), g(1)]).over(&two);
    let squares = sum(Term::Zero, vec![g(0).times(&g(0)), g(1).times(&g(1))]);
    let r = squares.over(&two).minus(&m.times(&m)).plus(&epsilon).rsqrt();
    let out = |i: usize| r.times(&g(i).minus(&m)).times(&g(2 + i)).plus(&g(4 + i));
    assert_eq!(mean.reals(), vec![m.copy()]);
    assert_eq!(rstd.reals(), vec![r.copy()]);
    assert_eq!(y.reals(), vec![out(0), out(1)]);
}

#[test]
fn gradients_of_normalisation_are_added_up() {
    let (mut dx, mut dw, mut db) = (given(vec![1, 1, 2], 20), given(vec![2], 22), given(vec![2], 24));
    let (dy, x, w) = (given(vec![1, 1, 2], 0), given(vec![1, 1, 2], 2), given(vec![2], 4));
    let (mean, rstd) = (given(vec![1, 1], 6), given(vec![1, 1], 7));
    layer_norm::backward(&mut dx, &mut dw, &mut db, &dy, &x, &w, &mean, &rstd);

    let norm = |i: usize| g(2 + i).minus(&g(6)).times(&g(7));
    let dnorm = |i: usize| g(4 + i).times(&g(i));
    let two = Term::Count(2);
    let first = sum(Term::Zero, vec![dnorm(0), dnorm(1)]).over(&two);
    let terms = vec![norm(0).times(&dnorm(0)), norm(1).times(&dnorm(1))];
    let second = sum(Term::Zero, terms).over(&two);
    let share = |i: usize| g(7).times(&dnorm(i).minus(&first).minus(&norm(i).times(&second)));
    assert_eq!(dx.reals(), vec![g(20).plus(&share(0)), g(21).plus(&share(1))]);
    let scales = |i: usize| g(22 + i).plus(&norm(i).times(&g(i)));
    assert_eq!(dw.reals(), vec![scales(0), scales(1)]);
    assert_eq!(db.reals(), vec![g(24).plus(&g(0)), g(25).plus(&g(1))]);
}

#[test]
fn softmax_stops_at_the_mask() {
    let mut y = given(vec![1, 1, 3], 10);
    loss::softmax(&mut y, &given(vec![1, 1, 3], 0), 2);
    let top = g(0).total_max(&g(1));
    let (e0, e1) = (g(0).minus(&top).exp(), g(1).minus(&top).exp());
    let total = sum(Term::Zero, vec![e0.copy(), e1.copy()]);
    assert_eq!(y.reals(), vec![e0.over(&total), e1.over(&total), Term::Zero]);
}

#[test]
fn the_loss_is_that_of_the_target() {
    let mut losses = zeros(vec![1, 2]);
    let probs = given(vec![1, 2, 3], 0);
    loss::crossentropy(&mut losses, &probs, &tokens(vec![1, 2], vec![2, 0]));
    assert_eq!(losses.reals(), vec![g(2).ln().negated(), g(3).ln().negated()]);
}

#[test]
fn the_target_is_taken_off_the_probabilities() {
    let mut dlogits = zeros(vec![1, 1, 2]);
    let (dlosses, probs) = (given(vec![1, 1], 5), given(vec![1, 1, 2], 0));
    loss::backward(&mut dlogits, &dlosses, &probs, &tokens(vec![1, 1], vec![1]));
    let first = g(0).minus(&Term::Zero).times(&g(5));
    let second = g(1).minus(&Term::One).times(&g(5));
    assert_eq!(dlogits.reals(), vec![Term::Zero.plus(&first), Term::Zero.plus(&second)]);
}

#[test]
fn a_target_behind_the_row_is_taken_off_nowhere() {
    let mut dlogits = zeros(vec![1, 1, 1]);
    let (dlosses, probs) = (given(vec![1, 1], 5), given(vec![1, 1, 1], 0));
    loss::backward(&mut dlogits, &dlosses, &probs, &tokens(vec![1, 1], vec![9]));
    let share = g(0).minus(&Term::Zero).times(&g(5));
    assert_eq!(dlogits.reals(), vec![Term::Zero.plus(&share)]);
}

/// The weights that a list of scores gives.
fn weights(scores: &[Term]) -> Vec<Term> {
    let top = scores.iter().fold(Term::Bottom, |top, score| top.raised(score));
    let exps: Vec<Term> = scores.iter().map(|s| s.minus(&top).exp()).collect();
    let total = sum(Term::Zero, exps.iter().map(|e| e.copy()).collect());
    let inverse = Term::One.over(&total);
    exps.iter().map(|e| e.times(&inverse)).collect()
}

#[test]
fn a_position_attends_to_those_up_to_it() {
    // Two positions of one head of width one: query, key, value.
    let x = given(vec![1, 2, 3], 0);
    let mut y = given(vec![1, 2, 1], 30);
    let mut preatt = given(vec![1, 1, 2, 2], 40);
    let mut att = given(vec![1, 1, 2, 2], 50);
    attend(&mut y, &mut preatt, &mut att, &x);

    let scaling = Term::Count(1).rsqrt();
    let score = |q: usize, k: usize| Term::EmptySum.plus(&g(q).times(&g(k))).times(&scaling);
    let (s00, s10, s11) = (score(0, 1), score(3, 1), score(3, 4));
    let first = weights(&[s00.copy()]);
    let second = weights(&[s10.copy(), s11.copy()]);
    let mixed = vec![
        Term::Zero.plus(&first[0].times(&g(2))),
        Term::Zero.plus(&second[0].times(&g(2))).plus(&second[1].times(&g(5))),
    ];
    assert_eq!(preatt.reals(), vec![s00, g(41), s10, s11]);
    assert_eq!(
        att.reals(),
        vec![first[0].copy(), Term::Zero, second[0].copy(), second[1].copy()]
    );
    assert_eq!(y.reals(), mixed);
}

#[test]
fn columns_beyond_the_heads_are_left_alone() {
    // Three columns of output for two heads: the third belongs to none.
    let x = given(vec![1, 1, 9], 0);
    let mut y = given(vec![1, 1, 3], 30);
    let (mut preatt, mut att) = (zeros(vec![1, 2, 1, 1]), zeros(vec![1, 2, 1, 1]));
    attend(&mut y, &mut preatt, &mut att, &x);
    let scaling = Term::Count(1).rsqrt();
    let score = |h: usize| Term::EmptySum.plus(&g(h).times(&g(3 + h))).times(&scaling);
    let out = |h: usize| Term::Zero.plus(&weights(&[score(h)])[0].times(&g(6 + h)));
    assert_eq!(y.reals(), vec![out(0), out(1), g(32)]);
}

#[test]
fn gradients_of_attention_are_added_up() {
    let x = given(vec![1, 2, 3], 0);
    let (dy, att) = (given(vec![1, 2, 1], 10), given(vec![1, 1, 2, 2], 20));
    let mut dx = zeros(vec![1, 2, 3]);
    let (mut dpreatt, mut datt) = (zeros(vec![1, 1, 2, 2]), zeros(vec![1, 1, 2, 2]));
    attend_back(&mut dx, &mut dpreatt, &mut datt, &dy, &x, &att);

    // Gradients of the weights.
    let dweight = |t: usize, s: usize| Term::Zero.plus(&g(3 * s + 2).times(&g(10 + t)));
    assert_eq!(
        datt.reals(),
        vec![dweight(0, 0), Term::Zero, dweight(1, 0), dweight(1, 1)]
    );

    // Gradients of the scores.
    let weight = |t: usize, s: usize| g(20 + 2 * t + s);
    let slope = |t: usize, u: usize, s: usize| {
        let indicator = if u == s { Term::One } else { Term::Zero };
        weight(t, u).times(&indicator.minus(&weight(t, s))).times(&dweight(t, u))
    };
    let dscore = |t: usize, s: usize| {
        sum(Term::Zero, (0..=t).map(|u| slope(t, u, s)).collect())
    };
    assert_eq!(
        dpreatt.reals(),
        vec![dscore(0, 0), Term::Zero, dscore(1, 0), dscore(1, 1)]
    );

    // Gradients of queries, keys and values.
    let scaling = Term::Count(1).rsqrt();
    let along = |i: usize, t: usize, s: usize| g(i).times(&dscore(t, s)).times(&scaling);
    let value = |t: usize, s: usize| weight(t, s).times(&g(10 + t));
    assert_eq!(
        dx.reals(),
        vec![
            sum(Term::Zero, vec![along(1, 0, 0)]),
            sum(Term::Zero, vec![along(0, 0, 0), along(3, 1, 0)]),
            sum(Term::Zero, vec![value(0, 0), value(1, 0)]),
            sum(Term::Zero, vec![along(1, 1, 0), along(4, 1, 1)]),
            sum(Term::Zero, vec![along(3, 1, 1)]),
            sum(Term::Zero, vec![value(1, 1)]),
        ]
    );
}

#[test]
fn rows_with_a_spare_column_shift_queries_and_keys() {
    // Rows of four columns: three parts and a spare one.  The gradient counts
    // queries and keys in threes.
    let x = given(vec![1, 2, 4], 0);
    let (dy, att) = (given(vec![1, 2, 1], 10), given(vec![1, 1, 2, 2], 20));
    let mut dx = zeros(vec![1, 2, 4]);
    let (mut dpreatt, mut datt) = (zeros(vec![1, 1, 2, 2]), zeros(vec![1, 1, 2, 2]));
    attend_back(&mut dx, &mut dpreatt, &mut datt, &dy, &x, &att);
    let scaling = Term::Count(1).rsqrt();
    let score = dpreatt.reals();
    let along = |i: usize, s: &Term| g(i).times(s).times(&scaling);
    let got = dx.reals();
    // The query of the second position is taken to stand in column three.
    assert_eq!(
        got[3],
        sum(Term::Zero, vec![along(1, &score[2]), along(4, &score[3])])
    );
    // Its key is taken to stand in column four.
    assert_eq!(got[4], sum(Term::Zero, vec![along(3, &score[3])]));
    // Its value stands in its place.
    assert_eq!(got[6], sum(Term::Zero, vec![g(23).times(&g(11))]));
    assert_eq!(got[5], Term::Zero);
    assert_eq!(got[7], Term::Zero);
}

#[test]
fn a_bias_comes_before_the_products() {
    let mut y = given(vec![1, 2, 1], 30);
    let (x, w, b) = (given(vec![1, 2, 2], 0), given(vec![1, 2], 4), given(vec![1], 6));
    linear::forward(&mut y, &x, &w, Some(&b));
    let out = |i: usize| {
        sum(g(6), vec![g(2 * i).times(&g(4)), g(2 * i + 1).times(&g(5))])
    };
    assert_eq!(y.reals(), vec![out(0), out(1)]);
}

#[test]
fn without_a_bias_the_output_is_replaced() {
    let mut y = given(vec![1, 1, 2], 30);
    let (x, w) = (given(vec![1, 1, 1], 0), given(vec![2, 1], 1));
    linear::forward(&mut y, &x, &w, None);
    let out = |j: usize| sum(Term::Zero, vec![g(0).times(&g(1 + j))]);
    assert_eq!(y.reals(), vec![out(0), out(1)]);
}

#[test]
fn gradients_of_a_map_are_products() {
    let (mut dx, mut dw) = (given(vec![1, 2, 1], 30), given(vec![2, 1], 40));
    let db = given(vec![2], 50);
    let (dy, x, w) = (given(vec![1, 2, 2], 0), given(vec![1, 2, 1], 10), given(vec![2, 1], 20));
    let db = linear::backward(&mut dx, &mut dw, Some(db), &dy, &x, &w).unwrap();
    let input = |i: usize| {
        sum(Term::Zero, vec![g(2 * i).times(&g(20)), g(2 * i + 1).times(&g(21))])
    };
    assert_eq!(dx.reals(), vec![input(0), input(1)]);
    let weight = |j: usize| sum(Term::Zero, vec![g(j).times(&g(10)), g(2 + j).times(&g(11))]);
    assert_eq!(dw.reals(), vec![weight(0), weight(1)]);
    let bias = |j: usize| sum(g(50 + j), vec![g(j), g(2 + j)]);
    assert_eq!(db.reals(), vec![bias(0), bias(1)]);
}

#[test]
fn without_a_bias_there_is_no_gradient_of_one() {
    let (mut dx, mut dw) = (zeros(vec![1, 1, 1]), zeros(vec![1, 1]));
    let (dy, x, w) = (given(vec![1, 1, 1], 0), given(vec![1, 1, 1], 1), given(vec![1, 1], 2));
    assert!(linear::backward(&mut dx, &mut dw, None, &dy, &x, &w).is_none());
}

#[test]
fn rows_of_two_tables_are_added() {
    let mut y = zeros(vec![1, 2, 2]);
    let (table1, table2) = (given(vec![3, 2], 0), given(vec![2, 2], 10));
    let (i1, i2) = (tokens(vec![1, 2], vec![2, 0]), tokens(vec![2], vec![0, 1]));
    gather(&mut y, &i1, &i2, &table1, &table2);
    assert_eq!(
        y.reals(),
        vec![g(4).plus(&g(10)), g(5).plus(&g(11)), g(0).plus(&g(12)), g(1).plus(&g(13))]
    );
}

#[test]
fn rows_go_to_the_rows_that_their_indices_name() {
    let (mut dtable1, mut dtable2) = (given(vec![2, 1], 20), given(vec![3, 1], 30));
    let dy = given(vec![1, 3, 1], 0);
    let (i1, i2) = (tokens(vec![1, 3], vec![1, 1, 1]), tokens(vec![3], vec![0, 1, 0]));
    scatter(&mut dtable1, &mut dtable2, &dy, &i1, &i2);
    assert_eq!(dtable1.reals(), vec![g(20), sum(g(21), vec![g(0), g(1), g(2)])]);
    assert_eq!(dtable2.reals(), vec![sum(g(30), vec![g(0), g(2)]), g(31).plus(&g(1)), g(32)]);
}

#[test]
fn a_shape_asks_for_as_many_elements() {
    assert!(Tensor::from_reals(vec![2, 2], vec![g(0), g(1), g(2)]).is_none());
    assert!(Tensor::<Term>::from_tokens(vec![2], vec![1]).is_none());
    assert!(Tensor::<Term>::from_tokens(vec![usize::MAX, 2], vec![]).is_none());
    assert!(Tensor::<Term>::from_tokens(vec![usize::MAX, 2, 0], vec![]).is_some());
    assert_eq!(given(vec![], 3).reals(), vec![g(3)]);
}

#[test]
fn adding_rows_in_two_passes_is_adding_them_in_one() {
    let run = |passes: Vec<(usize, Vec<u16>)>| {
        let (mut dtable1, mut dtable2) = (given(vec![2, 1], 20), given(vec![2, 1], 30));
        for (first, index) in passes {
            let n = index.len();
            let dy = given(vec![1, n, 1], first);
            let (i1, i2) = (tokens(vec![1, n], index.clone()), tokens(vec![n], index));
            scatter(&mut dtable1, &mut dtable2, &dy, &i1, &i2);
        }
        (dtable1.reals(), dtable2.reals())
    };
    let parts = run(vec![(0, vec![1, 0]), (2, vec![1])]);
    assert_eq!(parts, run(vec![(0, vec![1, 0, 1])]));
    assert_eq!(parts.0, vec![g(20).plus(&g(1)), sum(g(21), vec![g(0), g(2)])]);
}
