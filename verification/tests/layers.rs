//! The layers, in a context.
use llm_nn::context::{Context, Shared};
use llm_nn::digit::real32;
use llm_nn::nn::attention::Attention;
use llm_nn::nn::embedding::{build_pos, BatchIter, Embedding};
use llm_nn::nn::layer_norm::LayerNorm;
use llm_nn::nn::linear::Linear;
use llm_nn::nn::loss::Loss;
use llm_nn::scalar::Scalar;
use llm_nn::tensor::Tensor;
use llm_nn::term::Term;
use std::rc::Rc;

fn g(i: usize) -> Term {
    Term::Given(i)
}

fn given(shape: Vec<usize>, first: usize) -> Tensor<Term> {
    let n: usize = shape.iter().product();
    Tensor::from_reals(shape, (first..first + n).map(g).collect()).unwrap()
}

fn input(shape: Vec<usize>, first: usize) -> Vec<Rc<Tensor<Term>>> {
    vec![Rc::new(given(shape, first))]
}

fn sum(start: Term, terms: Vec<Term>) -> Term {
    terms.iter().fold(start, |sum, term| sum.plus(term))
}

fn gradient(ctx: &Context<Term>, weight: Shared) -> Vec<Term> {
    ctx.read(ctx.gradient(weight).unwrap()).reals()
}

#[test]
fn attention_keeps_what_it_needs_to_go_back() {
    let mut ctx: Context<Term> = Context::new(false);
    let mut layer: Attention<Term> = ctx.init("attn", 2);
    assert!(layer.nh == 2 && layer.x.is_none() && layer.att.is_none());
    let y = ctx.forward("attn", &mut layer, input(vec![1, 2, 6], 0));
    assert_eq!(y.len(), 1);
    assert_eq!(y[0].shape(), vec![1, 2, 2]);
    assert_eq!(layer.att.as_ref().unwrap().shape(), vec![1, 2, 2, 2]);
    assert_eq!(layer.x.as_ref().unwrap().cell(11), g(11));
    let dx = ctx.backward("attn", &mut layer, input(vec![1, 2, 2], 20));
    assert_eq!(dx.len(), 1);
    assert_eq!(dx[0].shape(), vec![1, 2, 6]);
    assert!(layer.nh == 2 && layer.x.is_none() && layer.att.is_none());
}

#[test]
fn attention_does_not_look_ahead() {
    let run = |last: usize| {
        let mut ctx: Context<Term> = Context::new(false);
        let mut layer: Attention<Term> = ctx.init("attn", 1);
        let mut cells: Vec<Term> = (0..18).map(g).collect();
        cells[6] = g(last);
        cells[17] = g(last);
        let x = Tensor::from_reals(vec![2, 3, 3], cells).unwrap();
        let y = ctx.forward("attn", &mut layer, vec![Rc::new(x)]);
        (y[0].reals(), layer.att.unwrap().reals())
    };
    let ((a, weights), (b, _)) = (run(100), run(200));
    assert_eq!(a[0], b[0]);
    assert_eq!(a[1], b[1]);
    assert_ne!(a[2], b[2]);
    assert_eq!(a[3], b[3]);
    assert_eq!(a[4], b[4]);
    assert_ne!(a[5], b[5]);
    assert_eq!(weights[1], Term::Zero);
    assert_eq!(weights[2], Term::Zero);
    assert_eq!(weights[5], Term::Zero);
    assert_ne!(weights[8], Term::Zero);
}

#[test]
fn attention_gradients_gather_the_later_positions() {
    let mut ctx: Context<Term> = Context::new(false);
    let mut layer: Attention<Term> = ctx.init("attn", 1);
    ctx.forward("attn", &mut layer, input(vec![1, 2, 3], 0));
    let att = layer.att.as_ref().unwrap().reals();
    let dx = ctx.backward("attn", &mut layer, input(vec![1, 2, 1], 10))[0].reals();
    let first = vec![att[0].times(&g(10)), att[2].times(&g(11))];
    assert_eq!(dx[2], sum(Term::Zero, first));
    assert_eq!(dx[5], sum(Term::Zero, vec![att[3].times(&g(11))]));
}

#[test]
fn normalisation_adds_to_the_gradients_of_its_weights() {
    let mut ctx: Context<Term> = Context::new(false);
    let (w, b) = (ctx.share(given(vec![1], 50)), ctx.share(given(vec![1], 60)));
    let mut layer: LayerNorm<Term> = ctx.init("ln", [w, b]);
    assert!(layer.w == w && layer.b == b && layer.x.is_none());
    let mut shares = Vec::new();
    let mut scales = Vec::new();
    for step in 0..2 {
        let y = ctx.forward("ln", &mut layer, input(vec![1, 1, 1], step));
        assert_eq!(y[0].shape(), vec![1, 1, 1]);
        let (mean, rstd) = (
            layer.mean.as_ref().unwrap().cell(0),
            layer.rstd.as_ref().unwrap().cell(0),
        );
        let dx = ctx.backward("ln", &mut layer, input(vec![1, 1, 1], 10 + step));
        assert_eq!(dx[0].shape(), vec![1, 1, 1]);
        assert!(layer.x.is_none() && layer.mean.is_none() && layer.rstd.is_none());
        shares.push(g(10 + step));
        scales.push(g(step).minus(&mean).times(&rstd).times(&g(10 + step)));
    }
    assert_eq!(gradient(&ctx, b), vec![sum(Term::Zero, shares)]);
    assert_eq!(gradient(&ctx, w), vec![sum(Term::Zero, scales)]);
    assert_eq!(ctx.names(w), vec!["Ω.ln:w".to_string()]);
    assert_eq!(ctx.names(b), vec!["Ω.ln:b".to_string()]);
}

#[test]
fn a_map_replaces_the_gradient_of_its_weight_and_adds_to_that_of_its_bias() {
    let mut ctx: Context<Term> = Context::new(false);
    let (w, b) = (ctx.share(given(vec![1, 1], 50)), ctx.share(given(vec![1], 60)));
    let mut layer: Linear<Term> = ctx.init("fc", (w, Some(b)));
    for step in 0..2 {
        let y = ctx.forward("fc", &mut layer, input(vec![1, 1, 1], step));
        assert_eq!(y[0].reals(), vec![sum(g(60), vec![g(step).times(&g(50))])]);
        let dx = ctx.backward("fc", &mut layer, input(vec![1, 1, 1], 10 + step));
        let back = sum(Term::Zero, vec![g(10 + step).times(&g(50))]);
        assert_eq!(dx[0].reals(), vec![back]);
        assert!(layer.x.is_none());
    }
    let last = sum(Term::Zero, vec![g(11).times(&g(1))]);
    assert_eq!(gradient(&ctx, w), vec![last]);
    assert_eq!(gradient(&ctx, b), vec![sum(Term::Zero, vec![g(10), g(11)])]);
}

#[test]
fn a_map_without_bias_registers_its_weight_alone() {
    let mut ctx: Context<Term> = Context::new(true);
    let w = ctx.share(given(vec![2, 1], 50));
    let mut layer: Linear<Term> = ctx.init("head", (w, None));
    let y = ctx.forward("head", &mut layer, input(vec![2, 1, 1], 0));
    assert_eq!(y[0].shape(), vec![2, 1, 2]);
    ctx.backward("head", &mut layer, input(vec![2, 1, 2], 10));
    assert_eq!(ctx.names(w), vec!["Ω.head:w".to_string()]);
    let lines = ctx.take_report();
    assert_eq!(lines.len(), 2);
    assert!(lines.iter().all(|line| line.starts_with("Ω.head: ")));
}

#[test]
fn the_loss_keeps_targets_and_probabilities() {
    let mut ctx: Context<Term> = Context::new(true);
    let mut layer: Loss<Term> = ctx.init("loss", 2);
    let targets = Rc::new(Tensor::from_tokens(vec![1, 1], vec![1]).unwrap());
    let logits = Rc::new(given(vec![1, 1, 3], 0));
    let losses = ctx.forward("loss", &mut layer, vec![logits, targets]);
    let probs = layer.probs.as_ref().unwrap().reals();
    assert_eq!(probs[2], Term::Zero);
    assert_eq!(losses[0].shape(), vec![1, 1]);
    assert_eq!(losses[0].reals(), vec![probs[1].ln().negated()]);
    assert_eq!(layer.targets.as_ref().unwrap().token(0), 1);
    let dlogits = ctx.backward("loss", &mut layer, input(vec![1, 1], 9));
    let share = probs[1].minus(&Term::One).times(&g(9));
    assert_eq!(dlogits[0].cell(1), Term::Zero.plus(&share));
    assert!(layer.probs.is_none() && layer.targets.is_none() && layer.n_voc == 2);
    assert!(ctx.take_report().is_empty());
}

#[test]
fn logits_behind_the_vocabulary_have_no_influence() {
    let run = |last: usize| {
        let mut ctx: Context<Term> = Context::new(false);
        let mut layer: Loss<Term> = ctx.init("loss", 2);
        let targets = Rc::new(Tensor::from_tokens(vec![1, 1], vec![0]).unwrap());
        let logits = Tensor::from_reals(vec![1, 1, 3], vec![g(0), g(1), g(last)]).unwrap();
        ctx.forward("loss", &mut layer, vec![Rc::new(logits), targets])[0].reals()
    };
    assert_eq!(run(2), run(3));
}

#[test]
fn tokens_and_positions_are_embedded() {
    let mut ctx: Context<Term> = Context::new(false);
    let (te, pe) = (ctx.share(given(vec![3, 1], 0)), ctx.share(given(vec![2, 1], 10)));
    let mut layer: Embedding<Term> = ctx.init("embed", [te, pe]);
    let mut buf = vec![9; 4];
    build_pos(&mut buf, &vec![2, 2]);
    let positions = Tensor::from_tokens(vec![4], buf).unwrap();
    let tokens = Rc::new(Tensor::from_tokens(vec![2, 2], vec![2, 0, 2, 2]).unwrap());
    let y = layer.forward_at(tokens, &positions, &mut ctx);
    assert_eq!(y.shape(), vec![2, 2, 1]);
    assert_eq!(
        y.reals(),
        vec![g(2).plus(&g(10)), g(0).plus(&g(11)), g(2).plus(&g(10)), g(2).plus(&g(11))]
    );
    layer.backward_at(&given(vec![2, 2, 1], 20), &positions, &mut ctx);
    assert!(layer.tokens.is_none());
    assert_eq!(
        gradient(&ctx, te),
        vec![
            Term::Zero.plus(&g(21)),
            Term::Zero,
            sum(Term::Zero, vec![g(20), g(22), g(23)]),
        ]
    );
    assert_eq!(
        gradient(&ctx, pe),
        vec![sum(Term::Zero, vec![g(20), g(22)]), sum(Term::Zero, vec![g(21), g(23)])]
    );
    assert_eq!(ctx.names(te), vec!["Ω:wte".to_string()]);
    assert_eq!(ctx.names(pe), vec!["Ω:wpe".to_string()]);
}

#[test]
fn a_batch_without_sequences_is_embedded_as_it_is() {
    let mut ctx: Context<Term> = Context::new(false);
    let (te, pe) = (ctx.share(given(vec![3, 2], 0)), ctx.share(given(vec![2, 2], 10)));
    let mut layer: Embedding<Term> = ctx.init("embed", [te, pe]);
    let tokens = Rc::new(Tensor::from_tokens(vec![0, 4], vec![]).unwrap());
    let y = ctx.forward("embed", &mut layer, vec![tokens]);
    assert_eq!((y.len(), y[0].shape(), y[0].digit()), (1, vec![0, 4, 2], real32()));
    assert!(layer.tokens.is_some());
    let outputs = ctx.backward("embed", &mut layer, input(vec![0, 4, 2], 0));
    assert!(outputs.is_empty() && layer.tokens.is_none());
    assert_eq!(gradient(&ctx, te), ctx.read(te).zeroed_like().reals());
    assert_eq!(ctx.names(pe), vec!["Ω.embed:wpe".to_string()]);
}

#[test]
fn positions_follow_the_lengths_of_the_sequences() {
    let mut buf = vec![7; 7];
    build_pos(&mut buf, &vec![3, 0, 2]);
    assert_eq!(buf, vec![0, 1, 2, 0, 1, 7, 7]);
    let mut buf = vec![0; 6];
    build_pos(&mut buf, &vec![2, 2, 2]);
    assert_eq!(buf, vec![0, 1, 0, 1, 0, 1]);
}

#[test]
fn positions_are_cut_to_sixteen_bits() {
    let mut buf = vec![7; 65538];
    build_pos(&mut buf, &vec![65538]);
    assert_eq!(buf[65535..], [65535, 0, 1]);
}

#[test]
fn a_walk_stays_at_its_first_position() {
    let mut walk = BatchIter::new(2, 3);
    assert_eq!(walk.next(), Some(0));
    assert_eq!(walk.next(), Some(0));
    assert_eq!(walk.index, 0);
}

#[test]
fn a_walk_over_no_sequences_is_over() {
    assert_eq!(BatchIter::new(0, 3).next(), None);
}

#[test]
fn a_walk_ends_behind_its_last_sequence() {
    let at = |index: usize| BatchIter { batch_size: 2, seq_len: 3, index }.next();
    assert_eq!(at(5), Some(2));
    assert_eq!(at(6), None);
}

#[test]
fn tied_weights_share_their_gradient() {
    let mut ctx: Context<Term> = Context::new(false);
    let w = ctx.share(given(vec![2, 1], 0));
    let pe = ctx.share(given(vec![1, 1], 10));
    let mut embed: Embedding<Term> = ctx.init("embed", [w, pe]);
    let mut head: Linear<Term> = ctx.init("head", (w, None));
    let positions = Tensor::from_tokens(vec![1], vec![0]).unwrap();
    let tokens = Rc::new(Tensor::from_tokens(vec![1, 1], vec![1]).unwrap());
    let x = embed.forward_at(tokens, &positions, &mut ctx);
    ctx.forward("head", &mut head, vec![Rc::new(x)]);
    let dx = ctx.backward("head", &mut head, input(vec![1, 1, 2], 20));
    let product = gradient(&ctx, w);
    embed.backward_at(&dx[0], &positions, &mut ctx);
    let after = gradient(&ctx, w);
    assert_eq!(after[0], product[0]);
    assert_eq!(after[1], product[1].plus(&dx[0].cell(0)));
    assert_eq!(ctx.names(w), vec!["Ω.head:w".to_string(), "Ω:wte".to_string()]);
}
