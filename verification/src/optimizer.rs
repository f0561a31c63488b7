//! What changes the weights of a model.
use crate::scalar::Scalar;
use crate::state::State;
use crate::tensor::{Content, Tensor};
use vstd::prelude::*;

verus! {

/// A rule by which weights follow their gradients.
pub trait Optimizer<E: Scalar>: Sized {
    /// Whether the optimizer may go from `before` to `after`, and weight and
    /// gradient from `tensors` to `tensors_after`.  Where an implementation does
    /// not say, they may.
    open spec fn updates(
        before: Self,
        tensors: (Content<E>, Content<E>),
        after: Self,
        tensors_after: (Content<E>, Content<E>),
    ) -> bool {
        true
    }

    /// Changes the elements of one weight by its gradient.  Those of the gradient
    /// may change, too.
    fn update(&mut self, weight: &mut Tensor<E>, gradient: &mut Tensor<E>)
        requires
            old(weight).wf(),
            old(gradient).wf(),
            old(gradient)@.same_form(old(weight)@),
        ensures
            final(weight).wf(),
            final(weight)@.same_form(old(weight)@),
            final(gradient).wf(),
            final(gradient)@.same_form(old(gradient)@),
            Self::updates(
                *old(self),
                (old(weight)@, old(gradient)@),
                *final(self),
                (final(weight)@, final(gradient)@),
            ),
    ;
}

/// Whether updating the weight in cell `w` may lead from the optimizer and the
/// context `before` to those `after`.
pub open spec fn steps<E: Scalar, O: Optimizer<E>>(
    before: (O, State<E>),
    w: u64,
    after: (O, State<E>),
) -> bool {
    let g = before.1.weights[w].gradient->0;
    &&& after.1 == before.1.with_tensor(w, after.1.tensors[w]).with_tensor(
        g,
        after.1.tensors[g],
    )
    &&& O::updates(
        before.0,
        (before.1.tensors[w], before.1.tensors[g]),
        after.0,
        (after.1.tensors[w], after.1.tensors[g]),
    )
}

/// Whether updating the weights in this order may lead through these stages.
pub open spec fn walks<E: Scalar, O: Optimizer<E>>(
    order: Seq<u64>,
    stages: Seq<(O, State<E>)>,
) -> bool {
    &&& stages.len() == order.len() + 1
    &&& forall|i: int| 0 <= i < order.len() ==> steps(stages[i], #[trigger] order[i], stages[i + 1])
}

/// Whether updating every weight once, in some order, may lead from the
/// optimizer and the context `before` to those `after`.
pub open spec fn updated<E: Scalar, O: Optimizer<E>>(
    before: (O, State<E>),
    after: (O, State<E>),
) -> bool {
    exists|order: Seq<u64>, stages: Seq<(O, State<E>)>|
        {
            &&& order.no_duplicates()
            &&& order.to_set() == before.1.weights.dom()
            &&& #[trigger] walks(order, stages)
            &&& stages[0] == before
            &&& stages.last() == after
        }
}

/// An update changes nothing but what weights and gradients hold.
pub proof fn law_only_weights_and_gradients_change<E: Scalar, O: Optimizer<E>>(
    before: (O, State<E>),
    after: (O, State<E>),
)
    requires
        forall|w: u64| #[trigger]
            before.1.weights.contains_key(w) ==> before.1.weights[w].gradient is Some,
        updated(before, after),
    ensures
        after.1 == (State { tensors: after.1.tensors, ..before.1 }),
        forall|c: u64| #[trigger]
            before.1.tensors.contains_key(c) && !before.1.weights.contains_key(c)
                && !before.1.is_gradient(c) ==> after.1.tensors.contains_key(c)
                && after.1.tensors[c] == before.1.tensors[c],
{
    let (order, stages) = choose|order: Seq<u64>, stages: Seq<(O, State<E>)>|
        {
            &&& order.no_duplicates()
            &&& order.to_set() == before.1.weights.dom()
            &&& #[trigger] walks(order, stages)
            &&& stages[0] == before
            &&& stages.last() == after
        };
    lemma_walk_keeps(order, stages, order.len() as int);
}

/// The first `m` steps of a walk change nothing but what weights and gradients
/// hold.
proof fn lemma_walk_keeps<E: Scalar, O: Optimizer<E>>(
    order: Seq<u64>,
    stages: Seq<(O, State<E>)>,
    m: int,
)
    requires
        walks(order, stages),
        order.to_set() == stages[0].1.weights.dom(),
        forall|w: u64| #[trigger]
            stages[0].1.weights.contains_key(w) ==> stages[0].1.weights[w].gradient is Some,
        0 <= m <= order.len(),
    ensures
        stages[m].1 == (State { tensors: stages[m].1.tensors, ..stages[0].1 }),
        forall|c: u64| #[trigger]
            stages[0].1.tensors.contains_key(c) && !stages[0].1.weights.contains_key(c)
                && !stages[0].1.is_gradient(c) ==> stages[m].1.tensors.contains_key(c)
                && stages[m].1.tensors[c] == stages[0].1.tensors[c],
    decreases m,
{
    if m > 0 {
        lemma_walk_keeps(order, stages, m - 1);
        assert(steps(stages[m - 1], order[m - 1], stages[m - 1 + 1]));
        assert(order.to_set().contains(order[m - 1]));
        assert(stages[0].1.weights.contains_key(order[m - 1]));
    }
}

/// An update has the optimizer treat every weight once: `order` lists the weights,
/// each once, and `stages` what the optimizer is before and after each.  Every weight
/// and its own gradient go straight from what they held before to what they hold
/// after.
pub proof fn law_every_weight_updated_once<E: Scalar, O: Optimizer<E>>(
    before: (O, State<E>),
    after: (O, State<E>),
) -> (course: (Seq<u64>, Seq<O>))
    requires
        before.1.consistent(),
        forall|w: u64| #[trigger]
            before.1.weights.contains_key(w) ==> before.1.weights[w].gradient is Some,
        forall|w: u64| #[trigger]
            before.1.weights.contains_key(w) ==> !before.1.is_gradient(w),
        updated(before, after),
    ensures
        ({
            let (order, stages) = course;
            &&& order.no_duplicates()
            &&& forall|w: u64| order.contains(w) <==> #[trigger] before.1.weights.contains_key(w)
            &&& stages.len() == order.len() + 1
            &&& stages[0] == before.0
            &&& stages[order.len() as int] == after.0
            &&& forall|i: int|
                #![trigger order[i]]
                0 <= i < order.len() ==> {
                    let (w, g) = (order[i], before.1.weights[order[i]].gradient->0);
                    O::updates(
                        stages[i],
                        (before.1.tensors[w], before.1.tensors[g]),
                        stages[i + 1],
                        (after.1.tensors[w], after.1.tensors[g]),
                    )
                }
        }),
{
    let (order, stages) = choose|order: Seq<u64>, stages: Seq<(O, State<E>)>|
        {
            &&& order.no_duplicates()
            &&& order.to_set() == before.1.weights.dom()
            &&& #[trigger] walks(order, stages)
            &&& stages[0] == before
            &&& stages.last() == after
        };
    let optimizers = Seq::new(stages.len(), |i: int| stages[i].0);
    assert forall|w: u64| order.contains(w) <==> #[trigger] before.1.weights.contains_key(w) by {
        assert(order.to_set().contains(w) <==> order.contains(w));
        assert(before.1.weights.dom().contains(w) <==> before.1.weights.contains_key(w));
    }
    let n = order.len() as int;
    assert forall|i: int| #![trigger order[i]] 0 <= i < n implies {
        let (w, g) = (order[i], before.1.weights[order[i]].gradient->0);
        O::updates(
            optimizers[i],
            (before.1.tensors[w], before.1.tensors[g]),
            optimizers[i + 1],
            (after.1.tensors[w], after.1.tensors[g]),
        )
    } by {
        lemma_walk_keeps(order, stages, i);
        lemma_others_kept(order, stages, i, 0, i);
        lemma_others_kept(order, stages, i, i + 1, n);
        assert(steps(stages[i], order[i], stages[i + 1]));
    }
    (order, optimizers)
}

/// From stage `from` to stage `to`, a weight and its gradient that are not updated
/// there stay as they are.
proof fn lemma_others_kept<E: Scalar, O: Optimizer<E>>(
    order: Seq<u64>,
    stages: Seq<(O, State<E>)>,
    i: int,
    from: int,
    to: int,
)
    requires
        walks(order, stages),
        order.no_duplicates(),
        order.to_set() == stages[0].1.weights.dom(),
        stages[0].1.consistent(),
        forall|w: u64| #[trigger]
            stages[0].1.weights.contains_key(w) ==> stages[0].1.weights[w].gradient is Some,
        forall|w: u64| #[trigger]
            stages[0].1.weights.contains_key(w) ==> !stages[0].1.is_gradient(w),
        0 <= i < order.len(),
        0 <= from <= to <= order.len(),
        i < from || to <= i,
    ensures
        ({
            let (w, g) = (order[i], stages[0].1.weights[order[i]].gradient->0);
            &&& stages[to].1.tensors[w] == stages[from].1.tensors[w]
            &&& stages[to].1.tensors[g] == stages[from].1.tensors[g]
        }),
    decreases to - from,
{
    if from < to {
        let m = to - 1;
        lemma_others_kept(order, stages, i, from, m);
        lemma_walk_keeps(order, stages, m);
        assert(steps(stages[m], order[m], stages[m + 1]));
        let start = stages[0].1;
        let (w, v) = (order[i], order[m]);
        assert(order.to_set().contains(w) && order.to_set().contains(v));
        assert(start.weights.contains_key(w) && start.weights.contains_key(v));
        assert(w != v);
        assert(!start.is_gradient(w) && !start.is_gradient(v));
    }
}

} // verus!
