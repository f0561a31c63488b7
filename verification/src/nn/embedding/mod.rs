//! Token and position embedding.
use crate::context::{Context, Shared};
use crate::digit::f32_digit;
use crate::nn::embedding::backward::scattered;
use crate::nn::embedding::forward::{sums, within};
use crate::nn::{alone, contents, only, NeuralNetwork};
use crate::scalar::{cell2, Scalar};
use crate::state::State;
use crate::tensor::{lemma_size1, lemma_size2, lemma_size3, size, Content, Tensor};
use crate::vector::{lemma_place_bound, row};
use std::rc::Rc;
use std::time::Instant;
use vstd::prelude::*;

pub mod backward;
pub mod forward;
pub mod laws;

verus! {

/// A walk over the positions of the sequences of a batch.
pub struct BatchIter {
    /// The number of sequences.
    pub batch_size: usize,
    /// The number of positions of a sequence.
    pub seq_len: usize,
    /// Where the walk is, counted over all sequences.
    pub index: usize,
}

impl BatchIter {
    /// Starts at the first position of the first sequence.
    pub fn new(batch_size: usize, seq_len: usize) -> (iter: Self)
        ensures
            iter.batch_size == batch_size,
            iter.seq_len == seq_len,
            iter.index == 0,
    {
        BatchIter { batch_size, seq_len, index: 0 }
    }

    /// Returns the position within its sequence, or `None` past the last
    /// sequence.  The walk stays where it is.
    pub fn next(&mut self) -> (position: Option<usize>)
        requires
            old(self).seq_len > 0,
        ensures
            *final(self) == *old(self),
            position == if old(self).index / old(self).seq_len < old(self).batch_size {
                Some((old(self).index % old(self).seq_len) as usize)
            } else {
                None
            },
    {
        if self.index / self.seq_len < self.batch_size {
            Some(self.index % self.seq_len)
        } else {
            None
        }
    }
}

/// The positions of one sequence, as 16-bit integers.
pub open spec fn counted(n: usize) -> Seq<u16> {
    Seq::new(n as nat, |i: int| (i % 0x1_0000) as u16)
}

/// The positions of all sequences of these lengths, one after the other.
pub open spec fn positions(nseqs: Seq<usize>) -> Seq<u16>
    decreases nseqs.len(),
{
    if nseqs.len() == 0 {
        Seq::empty()
    } else {
        positions(nseqs.drop_last()) + counted(nseqs.last())
    }
}

/// The first sequences have no more positions than all.
proof fn lemma_positions_prefix(nseqs: Seq<usize>, i: int)
    requires
        0 <= i <= nseqs.len(),
    ensures
        positions(nseqs.take(i)).len() <= positions(nseqs).len(),
    decreases nseqs.len() - i,
{
    if i < nseqs.len() {
        lemma_positions_prefix(nseqs, i + 1);
        assert(nseqs.take(i + 1).drop_last() =~= nseqs.take(i));
    } else {
        assert(nseqs.take(i) =~= nseqs);
    }
}

/// Writes the positions of sequences of these lengths to the front of `buf`.
pub fn build_pos(buf: &mut Vec<u16>, nseqs: &Vec<usize>)
    requires
        positions(nseqs@).len() <= old(buf)@.len(),
    ensures
        final(buf)@ == positions(nseqs@) + old(buf)@.skip(positions(nseqs@).len() as int),
{
    let ghost before = buf@;
    let mut at: usize = 0;
    let mut s: usize = 0;
    while s < nseqs.len()
        invariant
            s <= nseqs.len(),
            at == positions(nseqs@.take(s as int)).len(),
            at <= buf@.len(),
            buf@.len() == before.len(),
            positions(nseqs@).len() <= before.len(),
            buf@ == positions(nseqs@.take(s as int)) + before.skip(at as int),
        decreases nseqs.len() - s,
    {
        let n = nseqs[s];
        let ghost head = positions(nseqs@.take(s as int));
        let ghost start = at;
        proof {
            assert(nseqs@.take(s + 1).drop_last() =~= nseqs@.take(s as int));
            lemma_positions_prefix(nseqs@, s + 1);
        }
        let mut i: usize = 0;
        while i < n
            invariant
                i <= n,
                at == start + i,
                start + n <= buf@.len(),
                buf@.len() == before.len(),
                head.len() == start,
                forall|c: int|
                    0 <= c < buf@.len() ==> #[trigger] buf@[c] == if c < start {
                        head[c]
                    } else if c < start + i {
                        ((c - start) % 0x1_0000) as u16
                    } else {
                        before[c]
                    },
            decreases n - i,
        {
            let _len = buf.len();
            buf.set(at, (i % 0x1_0000) as u16);
            at += 1;
            i += 1;
        }
        s += 1;
        assert(buf@ =~= positions(nseqs@.take(s as int)) + before.skip(at as int));
    }
    assert(nseqs@.take(s as int) =~= nseqs@);
}

/// Collects what is left of a walk that is past its last sequence: nothing.
fn rest(walk: BatchIter) -> (nseqs: Vec<usize>)
    requires
        walk.seq_len > 0,
        walk.index / walk.seq_len >= walk.batch_size,
    ensures
        nseqs@ == Seq::<usize>::empty(),
{
    let mut walk = walk;
    let mut nseqs: Vec<usize> = Vec::new();
    loop
        invariant
            walk.seq_len > 0,
            walk.index / walk.seq_len >= walk.batch_size,
            nseqs@ == Seq::<usize>::empty(),
        decreases 0int,
    {
        match walk.next() {
            Some(nseq) => nseqs.push(nseq),
            None => return nseqs,
        }
    }
}

/// A matrix without rows is empty.
proof fn lemma_empty2(shape: Seq<usize>)
    requires
        shape.len() == 2,
        shape[0] == 0,
    ensures
        size(shape) == 0,
{
    lemma_size2(shape);
    assert(shape[0] * shape[1] == 0) by (nonlinear_arith)
        requires
            shape[0] == 0,
    ;
}

/// A tensor of rank three without matrices is empty.
proof fn lemma_empty3(shape: Seq<usize>)
    requires
        shape.len() == 3,
        shape[0] == 0,
    ensures
        size(shape) == 0,
{
    lemma_size3(shape);
    assert(shape[0] * shape[1] * shape[2] == 0) by (nonlinear_arith)
        requires
            shape[0] == 0,
    ;
}

/// Token and position embedding.
pub struct Embedding<E> {
    /// The table of the tokens.
    pub te: Shared,
    /// The table of the positions.
    pub pe: Shared,
    /// The tokens, between going forward and backward.
    pub tokens: Option<Rc<Tensor<E>>>,
}

impl<E: Scalar> Embedding<E> {
    /// Whether both tables are held, with rows of the same width.
    pub open spec fn tables_fit(self, ctx: State<E>) -> bool {
        let (te, pe) = (ctx.tensors[self.te.id], ctx.tensors[self.pe.id]);
        &&& ctx.tensors.contains_key(self.te.id)
        &&& ctx.tensors.contains_key(self.pe.id)
        &&& te.is_real() && te.dims.len() == 2
        &&& pe.is_real() && pe.dims.len() == 2
        &&& te.dims[1] == pe.dims[1]
    }

    /// Whether these tokens at these positions can be looked up.
    pub open spec fn looks_up(
        self,
        tokens: Content<E>,
        positions: Content<E>,
        ctx: State<E>,
    ) -> bool {
        &&& tokens.holds_tokens() && tokens.dims.len() == 2
        &&& positions.holds_tokens()
        &&& positions.tokens().len() == tokens.tokens().len()
        &&& self.tables_fit(ctx)
        &&& within(tokens.tokens(), ctx.tensors[self.te.id].dims[0] as int)
        &&& within(positions.tokens(), ctx.tensors[self.pe.id].dims[0] as int)
    }

    /// Whether `y` holds, for every token, the sum of its row and of the row of
    /// its position.
    pub open spec fn embeds(
        self,
        tokens: Content<E>,
        positions: Content<E>,
        ctx: State<E>,
        y: Content<E>,
    ) -> bool {
        let (te, pe) = (ctx.tensors[self.te.id], ctx.tensors[self.pe.id]);
        let d = te.dims[1] as int;
        &&& y.holds_reals() && y.dims == seq![tokens.dims[0], tokens.dims[1], te.dims[1]]
        &&& forall|r: int|
            0 <= r < tokens.tokens().len() ==> #[trigger] row(y.cells(), d, r) == sums(
                row(te.cells(), d, tokens.tokens()[r] as int),
                row(pe.cells(), d, positions.tokens()[r] as int),
            )
    }

    /// The context with the gradients of both tables registered.
    pub open spec fn registered(self, ctx: State<E>) -> State<E> {
        ctx.with_gradient("wte"@, self.te.id).with_gradient("wpe"@, self.pe.id)
    }

    /// The context with the rows of `dy` added to the gradients of both tables.
    pub open spec fn credited(
        self,
        tokens: Content<E>,
        positions: Content<E>,
        dy: Content<E>,
        ctx: State<E>,
    ) -> State<E> {
        let ready = self.registered(ctx);
        let (dte, dpe) = (ready.gradient_cell(self.te.id), ready.gradient_cell(self.pe.id));
        let (te, pe) = (ready.tensors[dte], ready.tensors[dpe]);
        let d = te.dims[1];
        ready.with_tensor(
            dte,
            te.with_cells(scattered(te.cells(), tokens.tokens(), dy.cells(), d)),
        ).with_tensor(
            dpe,
            pe.with_cells(scattered(pe.cells(), positions.tokens(), dy.cells(), d)),
        )
    }

    /// Looks up tokens at given positions, and keeps the tokens.
    pub fn forward_at(
        &mut self,
        tokens: Rc<Tensor<E>>,
        positions: &Tensor<E>,
        ctx: &mut Context<E>,
    ) -> (y: Tensor<E>)
        requires
            old(ctx).wf(),
            old(self).looks_up((*tokens)@, positions@, old(ctx)@),
            size(
                seq![
                    tokens.dims()[0],
                    tokens.dims()[1],
                    old(ctx)@.tensors[old(self).te.id].dims[1],
                ],
            ) <= usize::MAX,
        ensures
            final(ctx).wf(),
            old(ctx)@.benched(final(ctx)@),
            final(self).te == old(self).te,
            final(self).pe == old(self).pe,
            final(self).tokens == Some(tokens),
            old(self).embeds((*tokens)@, positions@, old(ctx)@, y@),
    {
        let te = ctx.read(self.te);
        let pe = ctx.read(self.pe);
        let shape = [tokens.dim(0), tokens.dim(1), te.dim(1)];
        proof {
            assert(shape@ =~= seq![tokens.dims()[0], tokens.dims()[1], te.dims()[1]]);
            assert(shape@.drop_last() =~= tokens.dims());
        }
        let mut y = ctx.tensor(te.digit(), &shape);
        let start = Instant::now();
        forward::embedding(&mut y, &tokens, positions, te, pe);
        ctx.record(start);
        self.tokens = Some(tokens);
        y
    }

    /// Adds the rows of `dy` to the gradients of the rows that the kept tokens
    /// and these positions name, and forgets the tokens.
    pub fn backward_at(&mut self, dy: &Tensor<E>, positions: &Tensor<E>, ctx: &mut Context<E>)
        requires
            old(ctx).wf(),
            old(self).tokens is Some,
            old(self).looks_up((*old(self).tokens->0)@, positions@, old(ctx)@),
            old(self).te != old(self).pe,
            dy.holds_reals(),
            dy.dims().len() == 3,
            dy.dims()[0] * dy.dims()[1] == (*old(self).tokens->0)@.tokens().len(),
            dy.dims()[2] == old(ctx)@.tensors[old(self).te.id].dims[1],
            old(ctx)@.next + 2 <= u64::MAX,
        ensures
            final(ctx).wf(),
            old(self).credited(
                (*old(self).tokens->0)@,
                positions@,
                dy@,
                old(ctx)@,
            ).benched(final(ctx)@),
            *final(self) == (Embedding::<E> {
                te: old(self).te,
                pe: old(self).pe,
                tokens: None,
            }),
    {
        let dtable1 = ctx.write_gradient("wte", self.te);
        let dtable2 = ctx.write_gradient("wpe", self.pe);
        let tokens = self.tokens.take().unwrap();
        proof {
            lemma_size2(dy.dims().drop_last());
        }
        let mut table1 = ctx.take(dtable1);
        let mut table2 = ctx.take(dtable2);
        let start = Instant::now();
        backward::embedding(&mut table1, &mut table2, dy, &tokens, positions);
        ctx.put(dtable1, table1);
        ctx.put(dtable2, table2);
        assert(ctx@.tensors =~= old(self).credited(
            tokens@,
            positions@,
            dy@,
            old(ctx)@,
        ).tensors);
        ctx.record(start);
    }

    /// Lists the positions of a batch without sequences.
    fn no_positions(batch_size: usize, n_seq: usize) -> (positions: Tensor<E>)
        requires
            batch_size == 0,
            n_seq > 0,
        ensures
            positions.holds_tokens(),
            positions.tokens() == Seq::<u16>::empty(),
    {
        let n = batch_size * n_seq;
        let mut buf: Vec<u16> = vec![0; n];
        build_pos(&mut buf, &rest(BatchIter::new(batch_size, n_seq)));
        let mut shape: Vec<usize> = Vec::new();
        shape.push(n);
        proof {
            lemma_size1(shape@);
        }
        Tensor::from_tokens(shape, buf).unwrap()
    }
}

/// As a layer, the embedding finds its positions by walking over the batch.  The
/// walk does not move on ([`BatchIter::next`]), so it would never end in a batch
/// with sequences, and the layer takes a batch without sequences only.  Where the
/// positions are at hand, [`Embedding::forward_at`] and
/// [`Embedding::backward_at`] take any batch.
impl<E: Scalar> NeuralNetwork<E> for Embedding<E> {
    type Init = [Shared; 2];

    open spec fn inits(
        init: [Shared; 2],
        before: State<E>,
        network: Self,
        after: State<E>,
    ) -> bool {
        &&& after == before
        &&& network == (Embedding::<E> { te: init[0], pe: init[1], tokens: None })
    }

    open spec fn forward_accepts(self, inputs: Seq<Content<E>>, ctx: State<E>) -> bool {
        let tokens = inputs[0];
        &&& inputs.len() == 1
        &&& tokens.holds_tokens() && tokens.dims.len() == 2
        &&& tokens.dims[0] == 0 && tokens.dims[1] > 0
        &&& self.tables_fit(ctx)
    }

    open spec fn forwards(
        before: (Self, State<E>),
        inputs: Seq<Content<E>>,
        after: (Self, State<E>),
        outputs: Seq<Content<E>>,
    ) -> bool {
        let (layer, ctx) = before;
        let tokens = inputs[0];
        &&& ctx.benched(after.1)
        &&& after.0.te == layer.te && after.0.pe == layer.pe
        &&& after.0.tokens is Some && (*after.0.tokens->0)@ == tokens
        &&& outputs == seq![
            Content::<E>::zeroed(
                f32_digit(),
                seq![tokens.dims[0], tokens.dims[1], ctx.tensors[layer.te.id].dims[1]],
            ),
        ]
    }

    open spec fn backward_accepts(self, inputs: Seq<Content<E>>, ctx: State<E>) -> bool {
        let (dy, tokens) = (inputs[0], (*self.tokens->0)@);
        &&& inputs.len() == 1
        &&& self.tokens is Some
        &&& tokens.holds_tokens() && tokens.dims.len() == 2
        &&& tokens.dims[0] == 0 && tokens.dims[1] > 0
        &&& self.tables_fit(ctx)
        &&& self.te != self.pe
        &&& dy.holds_reals() && dy.dims.len() == 3
        &&& dy.dims[0] * dy.dims[1] == 0
        &&& dy.dims[2] == ctx.tensors[self.te.id].dims[1]
        &&& ctx.next + 2 <= u64::MAX
    }

    open spec fn backwards(
        before: (Self, State<E>),
        inputs: Seq<Content<E>>,
        after: (Self, State<E>),
        outputs: Seq<Content<E>>,
    ) -> bool {
        let (layer, ctx) = before;
        &&& layer.registered(ctx).benched(after.1)
        &&& after.0 == (Embedding::<E> { te: layer.te, pe: layer.pe, tokens: None })
        &&& outputs == Seq::<Content<E>>::empty()
    }

    fn init(init: [Shared; 2], ctx: &mut Context<E>) -> (network: Self) {
        Embedding { te: init[0], pe: init[1], tokens: None }
    }

    fn forward(&mut self, inputs: Vec<Rc<Tensor<E>>>, ctx: &mut Context<E>) -> (outputs: Vec<
        Rc<Tensor<E>>,
    >) {
        let tokens = only(inputs);
        let positions = Self::no_positions(tokens.dim(0), tokens.dim(1));
        let ghost te = ctx@.tensors[self.te.id];
        let ghost shape = seq![tokens.dims()[0], tokens.dims()[1], te.dims[1]];
        proof {
            lemma_empty2(tokens.dims());
            lemma_empty3(shape);
        }
        let y = self.forward_at(tokens, &positions, ctx);
        assert(y@ == Content::<E>::zeroed(f32_digit(), shape));
        alone(y)
    }

    fn backward(&mut self, inputs: Vec<Rc<Tensor<E>>>, ctx: &mut Context<E>) -> (outputs: Vec<
        Rc<Tensor<E>>,
    >) {
        let dy = only(inputs);
        let tokens = self.tokens.take().unwrap();
        let positions = Self::no_positions(tokens.dim(0), tokens.dim(1));
        self.tokens = Some(tokens);
        proof {
            lemma_empty2(tokens.dims());
            let ready = self.registered(ctx@);
            assert(self.credited(tokens@, positions@, dy@, ctx@).tensors =~= ready.tensors);
        }
        self.backward_at(&dy, &positions, ctx);
        let outputs: Vec<Rc<Tensor<E>>> = Vec::new();
        assert(contents(outputs@) =~= Seq::empty());
        outputs
    }
}

/// Sequences of one length give every sequence the positions from zero on.
pub proof fn law_uniform_positions(batch: nat, n: usize)
    ensures
        ({
            let all = positions(Seq::new(batch, |b: int| n));
            &&& all.len() == batch * n
            &&& forall|b: int, t: int|
                0 <= b < batch && 0 <= t < n ==> #[trigger] cell2(all, n as int, b, t) == (t
                    % 0x1_0000) as u16
        }),
    decreases batch,
{
    let lengths = Seq::new(batch, |b: int| n);
    let all = positions(lengths);
    if batch > 0 {
        let fewer = (batch - 1) as nat;
        law_uniform_positions(fewer, n);
        assert(lengths.drop_last() =~= Seq::new(fewer, |b: int| n));
        assert(fewer * n + n == batch * n) by (nonlinear_arith)
            requires
                fewer == batch - 1,
        ;
        let before = positions(Seq::new(fewer, |b: int| n));
        assert forall|b: int, t: int| 0 <= b < batch && 0 <= t < n implies #[trigger] cell2(
            all,
            n as int,
            b,
            t,
        ) == (t % 0x1_0000) as u16 by {
            if b < fewer {
                lemma_place_bound(b, t, fewer as int, n as int);
                assert(cell2(before, n as int, b, t) == (t % 0x1_0000) as u16);
            } else {
                assert(b * n + t == before.len() + t);
            }
        }
    } else {
        assert(batch * n == 0) by (nonlinear_arith)
            requires
                batch == 0,
        ;
    }
}

} // verus!
