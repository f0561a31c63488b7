//! Digit layouts, and the tensors that they ask for.
use digit_layout::types;
use llm_nn::context::Context;
use llm_nn::digit::{real32, unsigned16};
use llm_nn::tensor::{count, Tensor};
use llm_nn::term::Term;

#[test]
fn the_layouts_are_those_of_the_numbers() {
    assert_eq!(real32(), types::F32);
    assert_eq!(unsigned16(), types::U16);
    assert_eq!((real32().nbytes(), unsigned16().nbytes()), (4, 2));
}

#[test]
fn the_layout_decides_what_a_tensor_holds() {
    let ctx: Context<Term> = Context::new(false);
    let reals = ctx.tensor_zeroed(types::F32, &[2, 2]);
    assert_eq!(reals.reals(), vec![Term::Zero, Term::Zero, Term::Zero, Term::Zero]);
    let tokens = ctx.tensor_zeroed(types::U16, &[3]);
    assert_eq!(tokens.indices(), vec![0, 0, 0]);
    let doubles = ctx.tensor_zeroed(types::F64, &[3, 2]);
    assert_eq!(doubles.raw_len(), 48);
    let halves = ctx.tensor(types::F16, &[3, 2]);
    assert_eq!(halves.raw_len(), 12);
    assert_eq!(halves.digit(), types::F16);
    assert_eq!(halves.shape(), vec![3, 2]);
    assert_eq!(halves.rank(), 2);
}

#[test]
fn a_tensor_to_be_filled_has_the_shape_asked_for() {
    let ctx: Context<Term> = Context::new(false);
    let t = ctx.tensor(types::F32, &[2, 0, 3]);
    assert_eq!((t.dim(0), t.dim(1), t.dim(2)), (2, 0, 3));
    assert_eq!(t.real_len(), 0);
}

#[test]
fn zeros_of_the_same_form() {
    let t = Tensor::<Term>::from_tokens(vec![1, 2], vec![7, 8]).unwrap();
    let z = t.zeroed_like();
    assert_eq!((z.shape(), z.indices()), (vec![1, 2], vec![0, 0]));
    let r = Tensor::from_reals(vec![1], vec![Term::One]).unwrap().zeroed_like();
    assert_eq!(r.reals(), vec![Term::Zero]);
    let ctx: Context<Term> = Context::new(false);
    let raw = ctx.tensor(types::U8, &[5]).zeroed_like();
    assert_eq!((raw.digit(), raw.raw_len()), (types::U8, 5));
}

#[test]
fn elements_are_counted_as_far_as_they_can_be() {
    assert_eq!(count(&vec![]), Some(1));
    assert_eq!(count(&vec![2, 3, 4]), Some(24));
    assert_eq!(count(&vec![usize::MAX, 2]), None);
    assert_eq!(count(&vec![usize::MAX, 2, 0]), Some(0));
}
