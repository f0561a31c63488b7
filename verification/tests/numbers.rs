//! Numbers in single precision.
use llm_nn::context::Context;
use llm_nn::nn::attention::backward::backward as attend_back;
use llm_nn::nn::attention::forward::forward as attend;
use llm_nn::nn::attention::Attention;
use llm_nn::nn::layer_norm::{epsilon, LayerNorm};
use llm_nn::nn::linear::Linear;
use llm_nn::nn::loss::Loss;
use llm_nn::optimizer::Optimizer;
use llm_nn::scalar::Scalar;
use llm_nn::tensor::Tensor;
use std::rc::Rc;

#[derive(Clone, Copy)]
struct Real(f32);

impl Scalar for Real {
    fn zero_spec() -> Self {
        Real(0.)
    }
    fn one_spec() -> Self {
        Real(1.)
    }
    fn bottom_spec() -> Self {
        Real(f32::NEG_INFINITY)
    }
    fn empty_sum_spec() -> Self {
        Real(std::iter::empty::<f32>().sum())
    }
    fn count_spec(n: usize) -> Self {
        Real(n as f32)
    }
    fn plus_spec(self, other: Self) -> Self {
        Real(self.0 + other.0)
    }
    fn minus_spec(self, other: Self) -> Self {
        Real(self.0 - other.0)
    }
    fn times_spec(self, other: Self) -> Self {
        Real(self.0 * other.0)
    }
    fn over_spec(self, other: Self) -> Self {
        Real(self.0 / other.0)
    }
    fn raised_spec(self, other: Self) -> Self {
        if other.0 > self.0 {
            other
        } else {
            self
        }
    }
    fn total_max_spec(self, other: Self) -> Self {
        if self.0.total_cmp(&other.0).is_gt() {
            self
        } else {
            other
        }
    }
    fn negated_spec(self) -> Self {
        Real(-self.0)
    }
    fn exp_spec(self) -> Self {
        Real(self.0.exp())
    }
    fn ln_spec(self) -> Self {
        Real(self.0.ln())
    }
    fn rsqrt_spec(self) -> Self {
        Real(self.0.powf(-0.5))
    }
    fn zero() -> Self {
        Self::zero_spec()
    }
    fn one() -> Self {
        Self::one_spec()
    }
    fn bottom() -> Self {
        Self::bottom_spec()
    }
    fn empty_sum() -> Self {
        Self::empty_sum_spec()
    }
    fn count(n: usize) -> Self {
        Self::count_spec(n)
    }
    fn copy(&self) -> Self {
        *self
    }
    fn plus(&self, other: &Self) -> Self {
        self.plus_spec(*other)
    }
    fn minus(&self, other: &Self) -> Self {
        self.minus_spec(*other)
    }
    fn times(&self, other: &Self) -> Self {
        self.times_spec(*other)
    }
    fn over(&self, other: &Self) -> Self {
        self.over_spec(*other)
    }
    fn raised(&self, other: &Self) -> Self {
        self.raised_spec(*other)
    }
    fn total_max(&self, other: &Self) -> Self {
        self.total_max_spec(*other)
    }
    fn negated(&self) -> Self {
        self.negated_spec()
    }
    fn exp(&self) -> Self {
        self.exp_spec()
    }
    fn ln(&self) -> Self {
        self.ln_spec()
    }
    fn rsqrt(&self) -> Self {
        self.rsqrt_spec()
    }
    fn gemm(
        m: usize,
        n: usize,
        k: usize,
        dst: &mut Vec<Self>,
        read_dst: bool,
        lhs: &Vec<Self>,
        lhs_cs: usize,
        lhs_rs: usize,
        rhs: &Vec<Self>,
        rhs_cs: usize,
        rhs_rs: usize,
    ) {
        for i in 0..m {
            for j in 0..n {
                let mut sum = if read_dst { dst[i * n + j].0 } else { 0. };
                for p in 0..k {
                    sum += lhs[i * lhs_rs + p * lhs_cs].0 * rhs[p * rhs_rs + j * rhs_cs].0;
                }
                dst[i * n + j] = Real(sum);
            }
        }
    }
}

fn reals(shape: Vec<usize>, cells: &[f32]) -> Tensor<Real> {
    Tensor::from_reals(shape, cells.iter().map(|&x| Real(x)).collect()).unwrap()
}

fn numbers(tensor: &Tensor<Real>) -> Vec<f32> {
    tensor.reals().iter().map(|x| x.0).collect()
}

fn close(a: &[f32], b: &[f32]) -> bool {
    a.len() == b.len() && a.iter().zip(b).all(|(a, b)| (a - b).abs() < 1e-4)
}

#[test]
fn equal_scores_share_the_attention() {
    let mut ctx: Context<Real> = Context::new(false);
    let mut layer: Attention<Real> = ctx.init("attn", 1);
    // The queries are zero, so that every position up to the own one counts alike.
    let x = reals(vec![1, 2, 3], &[0., 5., 2., 0., 7., 6.]);
    let y = ctx.forward("attn", &mut layer, vec![Rc::new(x)]);
    assert_eq!(numbers(&y[0]), vec![2., 4.]);
    assert_eq!(numbers(layer.att.as_ref().unwrap()), vec![1., 0., 0.5, 0.5]);
    let dx = ctx.backward("attn", &mut layer, vec![Rc::new(reals(vec![1, 2, 1], &[1., 8.]))]);
    assert_eq!(numbers(&dx[0]), vec![0., 0., 5., 16., 0., 4.]);
}

#[test]
fn rows_get_mean_zero_and_deviation_one() {
    let mut ctx: Context<Real> = Context::new(false);
    let w = ctx.share(reals(vec![2], &[1., 2.]));
    let b = ctx.share(reals(vec![2], &[0., 1.]));
    let mut layer: LayerNorm<Real> = ctx.init("ln", [w, b]);
    let y = ctx.forward("ln", &mut layer, vec![Rc::new(reals(vec![1, 1, 2], &[1., 3.]))]);
    assert_eq!(numbers(layer.mean.as_ref().unwrap()), vec![2.]);
    assert!(close(&numbers(&y[0]), &[-1., 3.]));
    let dy = Rc::new(reals(vec![1, 1, 2], &[1., 1.]));
    let dx = ctx.backward("ln", &mut layer, vec![dy]);
    assert!(close(&numbers(&dx[0]), &[0., 0.]));
    let dw = ctx.gradient(w).unwrap();
    assert!(close(&numbers(ctx.read(dw)), &[-1., 1.]));
    let db = ctx.gradient(b).unwrap();
    assert_eq!(numbers(ctx.read(db)), vec![1., 1.]);
}

#[test]
fn a_row_of_equal_numbers_is_normalised_to_the_shift() {
    let epsilon: Real = epsilon();
    assert_eq!(epsilon.0, 1e-5);
    let mut ctx: Context<Real> = Context::new(false);
    let w = ctx.share(reals(vec![2], &[2., 2.]));
    let b = ctx.share(reals(vec![2], &[7., 8.]));
    let mut layer: LayerNorm<Real> = ctx.init("ln", [w, b]);
    let y = ctx.forward("ln", &mut layer, vec![Rc::new(reals(vec![1, 1, 2], &[3., 3.]))]);
    assert_eq!(numbers(&y[0]), vec![7., 8.]);
    assert_eq!(numbers(layer.mean.as_ref().unwrap()), vec![3.]);
    assert_eq!(numbers(layer.rstd.as_ref().unwrap()), vec![1e-5f32.powf(-0.5)]);
}

#[test]
fn weights_add_up_to_one_and_gradients_of_scores_to_zero() {
    let x = reals(
        vec![1, 3, 3],
        &[0.5, 1., 2., -1., 0.25, 3., 2., -0.5, 1.],
    );
    let mut y = reals(vec![1, 3, 1], &[0.; 3]);
    let (mut preatt, mut att) = (reals(vec![1, 1, 3, 3], &[0.; 9]), reals(vec![1, 1, 3, 3], &[0.; 9]));
    attend(&mut y, &mut preatt, &mut att, &x);
    let mut dx = reals(vec![1, 3, 3], &[0.; 9]);
    let (mut dpreatt, mut datt) = (reals(vec![1, 1, 3, 3], &[0.; 9]), reals(vec![1, 1, 3, 3], &[0.; 9]));
    let dy = reals(vec![1, 3, 1], &[1., -2., 3.]);
    attend_back(&mut dx, &mut dpreatt, &mut datt, &dy, &x, &att);
    let (weights, slopes) = (numbers(&att), numbers(&dpreatt));
    for t in 0..3 {
        let row = 3 * t..3 * t + 3;
        assert!(close(&[weights[row.clone()].iter().sum::<f32>()], &[1.]));
        assert!(weights[3 * t..=4 * t].iter().all(|&w| w > 0.));
        assert!(close(&[slopes[row].iter().sum::<f32>()], &[0.]));
    }
    assert!(slopes[6].abs() > 1e-3);
}

#[test]
fn a_shifted_row_is_normalised_to_the_same() {
    let run = |cells: &[f32]| {
        let mut ctx: Context<Real> = Context::new(false);
        let w = ctx.share(reals(vec![4], &[1.; 4]));
        let b = ctx.share(reals(vec![4], &[0.; 4]));
        let mut layer: LayerNorm<Real> = ctx.init("ln", [w, b]);
        let x = Rc::new(reals(vec![1, 1, 4], cells));
        let y = ctx.forward("ln", &mut layer, vec![x]);
        let mean = layer.mean.as_ref().unwrap().cell(0).0;
        let rstd = layer.rstd.as_ref().unwrap().cell(0).0;
        let dy = Rc::new(reals(vec![1, 1, 4], &[1., -2., 3., 5.]));
        let dx = ctx.backward("ln", &mut layer, vec![dy]);
        (numbers(&y[0]), mean, rstd, numbers(&dx[0]))
    };
    let (y1, mean1, rstd1, dx1) = run(&[1., 2., 4., 5.]);
    let (y2, mean2, rstd2, _) = run(&[4., 5., 7., 8.]);
    assert!(close(&y1, &y2) && close(&[rstd1], &[rstd2]));
    assert_eq!((mean1, mean2), (3., 6.));
    assert!(close(&[y1.iter().sum::<f32>(), dx1.iter().sum::<f32>()], &[0., 0.]));
    // The variance is 2.5.
    let mean_square = y1.iter().map(|y| y * y).sum::<f32>() / 4.;
    assert!(close(&[mean_square], &[2.5 / (2.5 + 1e-5)]));
}

#[test]
fn rows_are_mapped() {
    let mut ctx: Context<Real> = Context::new(false);
    let w = ctx.share(reals(vec![2, 3], &[1., 2., 3., 4., 5., 6.]));
    let b = ctx.share(reals(vec![2], &[10., 20.]));
    let mut layer: Linear<Real> = ctx.init("fc", (w, Some(b)));
    let x = reals(vec![2, 1, 3], &[1., 0., 1., 0., 1., 0.]);
    let y = ctx.forward("fc", &mut layer, vec![Rc::new(x)]);
    assert_eq!(numbers(&y[0]), vec![14., 30., 12., 25.]);
    let dy = Rc::new(reals(vec![2, 1, 2], &[1., 2., 3., 4.]));
    let dx = ctx.backward("fc", &mut layer, vec![dy]);
    assert_eq!(numbers(&dx[0]), vec![9., 12., 15., 19., 26., 33.]);
    let dw = ctx.gradient(w).unwrap();
    assert_eq!(numbers(ctx.read(dw)), vec![1., 3., 1., 2., 4., 2.]);
    let db = ctx.gradient(b).unwrap();
    assert_eq!(numbers(ctx.read(db)), vec![4., 6.]);
}

#[test]
fn equal_logits_cost_the_logarithm_of_their_number() {
    let mut ctx: Context<Real> = Context::new(false);
    let mut layer: Loss<Real> = ctx.init("loss", 2);
    let logits = Rc::new(reals(vec![1, 1, 3], &[3., 3., 100.]));
    let targets = Rc::new(Tensor::from_tokens(vec![1, 1], vec![0]).unwrap());
    let losses = ctx.forward("loss", &mut layer, vec![logits, targets]);
    assert_eq!(numbers(&losses[0]), vec![-(0.5f32.ln())]);
    assert_eq!(numbers(layer.probs.as_ref().unwrap()), vec![0.5, 0.5, 0.]);
    let dlosses = Rc::new(reals(vec![1, 1], &[2.]));
    let dlogits = ctx.backward("loss", &mut layer, vec![dlosses]);
    assert_eq!(numbers(&dlogits[0]), vec![-1., 1., 0.]);
}

#[test]
fn the_gradient_of_the_logits_is_balanced() {
    let mut ctx: Context<Real> = Context::new(false);
    let mut layer: Loss<Real> = ctx.init("loss", 3);
    let logits = Rc::new(reals(vec![1, 1, 4], &[0.5, -1., 2., 9.]));
    let targets = Rc::new(Tensor::from_tokens(vec![1, 1], vec![2]).unwrap());
    ctx.forward("loss", &mut layer, vec![logits, targets]);
    let probs = numbers(layer.probs.as_ref().unwrap());
    assert!(close(&[probs.iter().sum::<f32>()], &[1.]));
    let dlosses = Rc::new(reals(vec![1, 1], &[3.]));
    let gradient = numbers(&ctx.backward("loss", &mut layer, vec![dlosses])[0]);
    assert!(close(&gradient, &[3. * probs[0], 3. * probs[1], 3. * (probs[2] - 1.), 0.]));
    assert!(close(&[gradient.iter().sum::<f32>()], &[0.]));
}

/// Goes against the gradient.
struct Descent {
    rate: f32,
}

impl Optimizer<Real> for Descent {
    fn update(&mut self, weight: &mut Tensor<Real>, gradient: &mut Tensor<Real>) {
        for i in 0..weight.real_len() {
            let next = weight.cell(i).0 - self.rate * gradient.cell(i).0;
            weight.set(i, Real(next));
        }
    }
}

#[test]
fn descent_lowers_the_loss() {
    let mut ctx: Context<Real> = Context::new(false);
    let w = ctx.share(reals(vec![2, 2], &[0.5, -0.5, 0.25, 0.75]));
    let mut map: Linear<Real> = ctx.init("fc", (w, None));
    let mut loss: Loss<Real> = ctx.init("loss", 2);
    let mut costs = Vec::new();
    for _ in 0..3 {
        ctx.zero_grad();
        let x = Rc::new(reals(vec![1, 1, 2], &[1., 2.]));
        let logits = ctx.forward("fc", &mut map, vec![x]);
        let targets = Rc::new(Tensor::from_tokens(vec![1, 1], vec![0]).unwrap());
        let losses = ctx.forward("loss", &mut loss, vec![logits[0].clone(), targets]);
        costs.push(losses[0].cell(0).0);
        let dlosses = Rc::new(reals(vec![1, 1], &[1.]));
        let dlogits = ctx.backward("loss", &mut loss, vec![dlosses]);
        ctx.backward("fc", &mut map, dlogits);
        ctx.update(&mut Descent { rate: 0.1 });
    }
    assert!(costs[0] > costs[1] && costs[1] > costs[2]);
}
