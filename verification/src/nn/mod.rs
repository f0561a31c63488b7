//! The layers.
use crate::context::Context;
use crate::scalar::Scalar;
use crate::state::State;
use crate::tensor::{Content, Tensor};
use std::rc::Rc;
use vstd::prelude::*;

pub mod attention;
pub mod embedding;
pub mod layer_norm;
pub mod layer_norm_laws;
pub mod linear;
pub mod linear_laws;
pub mod loss;
pub mod loss_laws;

verus! {

/// What tensors hold.
pub open spec fn contents<E: Scalar>(tensors: Seq<Rc<Tensor<E>>>) -> Seq<Content<E>> {
    tensors.map_values(|t: Rc<Tensor<E>>| (*t)@)
}

/// Takes the only one of a list of tensors.
pub(crate) fn only<E: Scalar>(tensors: Vec<Rc<Tensor<E>>>) -> (tensor: Rc<Tensor<E>>)
    requires
        tensors@.len() == 1,
    ensures
        (*tensor)@ == contents(tensors@)[0],
{
    let mut tensors = tensors;
    tensors.pop().unwrap()
}

/// Takes both of a list of two tensors.
pub(crate) fn both<E: Scalar>(tensors: Vec<Rc<Tensor<E>>>) -> (pair: (
    Rc<Tensor<E>>,
    Rc<Tensor<E>>,
))
    requires
        tensors@.len() == 2,
    ensures
        (*pair.0)@ == contents(tensors@)[0],
        (*pair.1)@ == contents(tensors@)[1],
{
    let mut tensors = tensors;
    let second = tensors.pop().unwrap();
    let first = tensors.pop().unwrap();
    (first, second)
}

/// Lists one tensor.
pub(crate) fn alone<E: Scalar>(tensor: Tensor<E>) -> (tensors: Vec<Rc<Tensor<E>>>)
    ensures
        contents(tensors@) == seq![tensor@],
{
    let mut tensors: Vec<Rc<Tensor<E>>> = Vec::new();
    tensors.push(Rc::new(tensor));
    assert(contents(tensors@) =~= seq![tensor@]);
    tensors
}

/// A layer, or a model made of layers.
///
/// What a network demands and does is stated by spec functions.  Where an
/// implementation does not give one, it demands nothing, or anything may come
/// of the call.
pub trait NeuralNetwork<E: Scalar>: Sized {
    /// What a network is made of.
    type Init;

    /// Whether a network can be made of this here.
    open spec fn init_accepts(init: Self::Init, ctx: State<E>) -> bool {
        true
    }

    /// Whether this network may be made of `init`, taking the context from
    /// `before` to `after`.
    open spec fn inits(
        init: Self::Init,
        before: State<E>,
        network: Self,
        after: State<E>,
    ) -> bool {
        true
    }

    /// Whether the network can go forward from these inputs here.
    open spec fn forward_accepts(self, inputs: Seq<Content<E>>, ctx: State<E>) -> bool {
        true
    }

    /// Whether going forward may take network and context from `before` to
    /// `after` and give these outputs.
    open spec fn forwards(
        before: (Self, State<E>),
        inputs: Seq<Content<E>>,
        after: (Self, State<E>),
        outputs: Seq<Content<E>>,
    ) -> bool {
        true
    }

    /// Whether the network can go backward from these inputs here.
    open spec fn backward_accepts(self, inputs: Seq<Content<E>>, ctx: State<E>) -> bool {
        true
    }

    /// Whether going backward may take network and context from `before` to
    /// `after` and give these outputs.
    open spec fn backwards(
        before: (Self, State<E>),
        inputs: Seq<Content<E>>,
        after: (Self, State<E>),
        outputs: Seq<Content<E>>,
    ) -> bool {
        true
    }

    /// Makes a network.
    fn init(init: Self::Init, ctx: &mut Context<E>) -> (network: Self)
        requires
            old(ctx).wf(),
            Self::init_accepts(init, old(ctx)@),
        ensures
            final(ctx).wf(),
            final(ctx)@.path == old(ctx)@.path,
            Self::inits(init, old(ctx)@, network, final(ctx)@),
    ;

    /// Computes the outputs from the inputs.
    fn forward(&mut self, inputs: Vec<Rc<Tensor<E>>>, ctx: &mut Context<E>) -> (outputs: Vec<
        Rc<Tensor<E>>,
    >)
        requires
            old(ctx).wf(),
            old(self).forward_accepts(contents(inputs@), old(ctx)@),
        ensures
            final(ctx).wf(),
            final(ctx)@.path == old(ctx)@.path,
            Self::forwards(
                (*old(self), old(ctx)@),
                contents(inputs@),
                (*final(self), final(ctx)@),
                contents(outputs@),
            ),
    ;

    /// Computes the gradients of the inputs from those of the outputs.
    fn backward(&mut self, inputs: Vec<Rc<Tensor<E>>>, ctx: &mut Context<E>) -> (outputs: Vec<
        Rc<Tensor<E>>,
    >)
        requires
            old(ctx).wf(),
            old(self).backward_accepts(contents(inputs@), old(ctx)@),
        ensures
            final(ctx).wf(),
            final(ctx)@.path == old(ctx)@.path,
            Self::backwards(
                (*old(self), old(ctx)@),
                contents(inputs@),
                (*final(self), final(ctx)@),
                contents(outputs@),
            ),
    ;
}

} // verus!
