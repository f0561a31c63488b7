//! The context: where the model is walked, and what its layers share.
use llm_nn::context::{Context, Shared};
use llm_nn::nn::NeuralNetwork;
use llm_nn::optimizer::Optimizer;
use llm_nn::scalar::Scalar;
use llm_nn::tensor::Tensor;
use llm_nn::term::Term;
use std::rc::Rc;

fn weight(ctx: &mut Context<Term>, i: usize) -> Shared {
    ctx.share(Tensor::from_reals(vec![1], vec![Term::Given(i)]).unwrap())
}

/// The path, as a report shows it.
fn path(ctx: &Context<Term>) -> String {
    let line = ctx.report_line("now").unwrap();
    line.strip_suffix(": now").unwrap().to_string()
}

#[test]
fn a_context_starts_at_the_root() {
    let ctx: Context<Term> = Context::new(true);
    assert_eq!(path(&ctx), "Ω");
}

#[test]
fn a_trap_goes_one_level_down_and_comes_back() {
    let mut ctx: Context<Term> = Context::new(true);
    let inner = ctx.trap("block", |ctx| {
        let outer = path(ctx);
        let inner = ctx.trap("attn.ß", |ctx| path(ctx));
        assert_eq!(path(ctx), outer);
        (outer, inner)
    });
    assert_eq!(inner, ("Ω.block".to_string(), "Ω.block.attn.ß".to_string()));
    assert_eq!(path(&ctx), "Ω");
    assert_eq!(ctx.trap("", |ctx| path(ctx)), "Ω.");
    assert_eq!(path(&ctx), "Ω");
}

#[test]
fn a_first_gradient_is_zero_and_has_the_form_of_the_weight() {
    let mut ctx: Context<Term> = Context::new(false);
    let w = ctx.share(Tensor::from_reals(vec![2, 1], vec![Term::One, Term::One]).unwrap());
    assert_eq!(ctx.gradient(w), None);
    let g = ctx.write_gradient("w", w);
    assert_ne!(g, w);
    assert_eq!(ctx.gradient(w), Some(g));
    assert_eq!(ctx.read(g).shape(), vec![2, 1]);
    assert_eq!(ctx.read(g).reals(), vec![Term::Zero, Term::Zero]);
    assert_eq!(ctx.read(w).reals(), vec![Term::One, Term::One]);
}

#[test]
fn a_weight_has_one_gradient_under_all_its_names() {
    let mut ctx: Context<Term> = Context::new(false);
    let w = weight(&mut ctx, 0);
    let first = ctx.write_gradient("w", w);
    assert_eq!(ctx.write_gradient("w", w), first);
    let other = ctx.trap("head", |ctx| ctx.write_gradient("wte", w));
    assert_eq!(other, first);
    assert_eq!(ctx.names(w), vec!["Ω:w".to_string(), "Ω.head:wte".to_string()]);
}

#[test]
fn two_weights_have_two_gradients() {
    let mut ctx: Context<Term> = Context::new(false);
    let (v, w) = (weight(&mut ctx, 0), weight(&mut ctx, 1));
    let (dv, dw) = (ctx.write_gradient("w", v), ctx.write_gradient("w", w));
    assert_ne!(dv, dw);
}

#[test]
fn dropped_gradients_start_again_and_names_stay() {
    let mut ctx: Context<Term> = Context::new(false);
    let w = weight(&mut ctx, 4);
    let first = ctx.write_gradient("w", w);
    ctx.zero_grad();
    assert_eq!(ctx.gradient(w), None);
    assert_eq!(ctx.names(w), vec!["Ω:w".to_string()]);
    assert_eq!(ctx.read(w).reals(), vec![Term::Given(4)]);
    ctx.zero_grad();
    let second = ctx.write_gradient("w", w);
    assert_ne!(first, second);
    assert_eq!(ctx.read(second).reals(), vec![Term::Zero]);
}

#[test]
fn a_dropped_gradient_keeps_what_it_holds() {
    let mut ctx: Context<Term> = Context::new(false);
    let w = weight(&mut ctx, 0);
    let first = ctx.write_gradient("w", w);
    ctx.write(first, Tensor::from_reals(vec![1], vec![Term::Given(7)]).unwrap());
    ctx.zero_grad();
    assert_eq!(ctx.read(first).reals(), vec![Term::Given(7)]);
    let second = ctx.write_gradient("w", w);
    assert_ne!(first, second);
    assert_eq!(ctx.read(first).reals(), vec![Term::Given(7)]);
    assert_eq!(ctx.read(second).reals(), vec![Term::Zero]);
    assert_eq!(ctx.names(w), vec!["Ω:w".to_string()]);
}

#[test]
fn a_shared_tensor_can_be_written() {
    let mut ctx: Context<Term> = Context::new(false);
    let (v, w) = (weight(&mut ctx, 0), weight(&mut ctx, 1));
    ctx.write(w, Tensor::from_reals(vec![1], vec![Term::One]).unwrap());
    assert_eq!(ctx.read(w).reals(), vec![Term::One]);
    assert_eq!(ctx.read(v).reals(), vec![Term::Given(0)]);
}

#[test]
fn a_cell_that_nothing_needs_can_be_given_up() {
    let mut ctx: Context<Term> = Context::new(false);
    let w = weight(&mut ctx, 3);
    let g = ctx.write_gradient("w", w);
    ctx.zero_grad();
    assert_eq!(ctx.discard(g).reals(), vec![Term::Zero]);
    assert_eq!(ctx.read(w).reals(), vec![Term::Given(3)]);
    assert_ne!(ctx.write_gradient("w", w), g);
}

#[test]
fn an_unused_weight_has_neither_gradient_nor_name() {
    let mut ctx: Context<Term> = Context::new(false);
    let w = weight(&mut ctx, 0);
    assert_eq!(ctx.gradient(w), None);
    assert!(ctx.names(w).is_empty());
}

/// Takes the gradient off the weight.
struct Descent {
    steps: usize,
}

impl Optimizer<Term> for Descent {
    fn update(&mut self, weight: &mut Tensor<Term>, gradient: &mut Tensor<Term>) {
        self.steps += 1;
        for i in 0..weight.real_len() {
            let next = weight.cell(i).minus(&gradient.cell(i));
            weight.set(i, next);
            gradient.set(i, Term::One);
        }
    }
}

#[test]
fn an_update_reaches_every_weight_once() {
    let mut ctx: Context<Term> = Context::new(false);
    let (v, w, unused) = (weight(&mut ctx, 0), weight(&mut ctx, 1), weight(&mut ctx, 2));
    ctx.write_gradient("v", v);
    ctx.write_gradient("w", w);
    ctx.write_gradient("again", w);
    let mut descent = Descent { steps: 0 };
    ctx.update(&mut descent);
    assert_eq!(descent.steps, 2);
    assert_eq!(ctx.read(v).reals(), vec![Term::Given(0).minus(&Term::Zero)]);
    assert_eq!(ctx.read(w).reals(), vec![Term::Given(1).minus(&Term::Zero)]);
    assert_eq!(ctx.read(unused).reals(), vec![Term::Given(2)]);
    let dv = ctx.gradient(v).unwrap();
    assert_eq!(ctx.read(dv).reals(), vec![Term::One]);
    ctx.update(&mut descent);
    let twice = Term::Given(0).minus(&Term::Zero).minus(&Term::One);
    assert_eq!(ctx.read(v).reals(), vec![twice]);
}

#[test]
fn without_weights_there_is_nothing_to_update() {
    let mut ctx: Context<Term> = Context::new(false);
    let mut descent = Descent { steps: 0 };
    ctx.update(&mut descent);
    assert_eq!(descent.steps, 0);
}

#[test]
fn times_are_reported_where_they_are_asked_for() {
    let mut ctx: Context<Term> = Context::new(true);
    ctx.bench(|| ());
    ctx.trap("mlp", |ctx| ctx.bench(|| ()));
    let lines = ctx.take_report();
    assert_eq!(lines.len(), 2);
    assert!(lines[0].starts_with("Ω: "));
    assert!(lines[1].starts_with("Ω.mlp: "));
    assert!(lines[0].ends_with('s'));
    assert!(lines[0].len() > "Ω: s".len());
    assert!(ctx.take_report().is_empty());
}

#[test]
fn times_are_not_reported_elsewhere() {
    let mut ctx: Context<Term> = Context::new(false);
    ctx.bench(|| ());
    assert!(ctx.take_report().is_empty());
    assert_eq!(ctx.report_line("1ms"), None);
}

#[test]
fn a_reported_time_stands_behind_the_path() {
    let ctx: Context<Term> = Context::new(true);
    assert_eq!(ctx.report_line("1.5ms"), Some("Ω: 1.5ms".to_string()));
}

/// Notes where it was called.
struct Probe {
    made: String,
}

impl NeuralNetwork<Term> for Probe {
    type Init = u8;

    fn init(_init: u8, ctx: &mut Context<Term>) -> Self {
        Probe { made: path(ctx) }
    }

    fn forward(
        &mut self,
        inputs: Vec<Rc<Tensor<Term>>>,
        ctx: &mut Context<Term>,
    ) -> Vec<Rc<Tensor<Term>>> {
        self.made = path(ctx);
        inputs
    }

    fn backward(
        &mut self,
        _inputs: Vec<Rc<Tensor<Term>>>,
        ctx: &mut Context<Term>,
    ) -> Vec<Rc<Tensor<Term>>> {
        self.made = path(ctx);
        Vec::new()
    }
}

#[test]
fn a_network_runs_one_level_down() {
    let mut ctx: Context<Term> = Context::new(true);
    let mut probe: Probe = ctx.init("a", 0);
    assert_eq!(probe.made, "Ω.a");
    let input = Rc::new(Tensor::from_reals(vec![1], vec![Term::One]).unwrap());
    let outputs = ctx.forward("b", &mut probe, vec![input]);
    assert_eq!(probe.made, "Ω.b");
    assert_eq!(outputs[0].reals(), vec![Term::One]);
    assert!(ctx.backward("c", &mut probe, outputs).is_empty());
    assert_eq!(probe.made, "Ω.c");
    assert_eq!(path(&ctx), "Ω");
}
