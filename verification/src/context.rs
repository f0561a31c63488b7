//! The context in which the layers of a model run.
use crate::nn::{contents, NeuralNetwork};
use crate::optimizer::{steps, updated, walks, Optimizer};
use crate::scalar::Scalar;
use crate::state::{duration_text, Info, State};
use crate::tensor::{Content, Tensor};
use digit_layout::DigitLayout;
use std::collections::HashMap;
use std::rc::Rc;
use std::time::{Duration, Instant};
use vstd::prelude::*;

verus! {

broadcast use vstd::std_specs::hash::group_hash_axioms;

/// `std::time::Instant`, taken as an opaque value.
#[verifier::external_type_specification]
#[verifier::external_body]
pub struct ExInstant(Instant);

/// `Instant::now`: the time at which it is called.  Nothing is claimed of it.
pub assume_specification[ Instant::now ]() -> (now: Instant)
;

/// `Instant::elapsed`: the time that has passed since.  Nothing is claimed of it.
pub assume_specification[ Instant::elapsed ](start: &Instant) -> (took: Duration)
;

/// `{:?}` of a `Duration`: a function of the duration.
#[verifier::external_body]
fn show(took: Duration) -> (text: String)
    ensures
        text@ == duration_text(took),
{
    format!("{:?}", took)
}

/// A tensor that is shared: the cell of a context that holds it.
#[derive(Clone, Copy, Debug, PartialEq, Eq, Structural)]
pub struct Shared {
    /// The cell.
    pub id: u64,
}

/// What is known of a weight.
struct WeightInfo {
    gradient: Option<u64>,
    names: Vec<String>,
}

/// The strings of a list.
spec fn texts(list: Seq<String>) -> Seq<Seq<char>> {
    list.map_values(|s: String| s@)
}

impl WeightInfo {
    spec fn view(&self) -> Info {
        Info { gradient: self.gradient, names: texts(self.names@).to_set() }
    }

    /// Notes a name, once.
    fn record(&mut self, name: String)
        requires
            texts(old(self).names@).no_duplicates(),
        ensures
            texts(final(self).names@).no_duplicates(),
            final(self).gradient == old(self).gradient,
            final(self)@.names == old(self)@.names.insert(name@),
    {
        let ghost before = texts(self.names@);
        let mut known = false;
        let mut i: usize = 0;
        while i < self.names.len()
            invariant
                i <= self.names.len(),
                before == texts(self.names@),
                known <==> exists|j: int| 0 <= j < i && #[trigger] before[j] == name@,
            decreases self.names.len() - i,
        {
            assert(before[i as int] == self.names@[i as int]@);
            if self.names[i] == name {
                known = true;
            }
            i += 1;
        }
        if known {
            assert(before.to_set().insert(name@) =~= before.to_set());
        } else {
            self.names.push(name);
            let ghost after = texts(self.names@);
            proof {
                assert(after =~= before.push(name@));
                assert(before.push(name@).to_set() =~= before.to_set().insert(name@)) by {
                    broadcast use vstd::seq_lib::group_seq_properties;
                }
            }
        }
    }
}

/// The context in which the layers of a model run.
///
/// It knows where the model is being walked, holds the tensors that layers share
/// (the weights and their gradients), and notes how long the layers take.
pub struct Context<E> {
    path: String,
    weights: HashMap<u64, WeightInfo>,
    bench: bool,
    tensors: HashMap<u64, Tensor<E>>,
    next: u64,
    report: Vec<String>,
}

impl<E: Scalar> View for Context<E> {
    type V = State<E>;

    closed spec fn view(&self) -> State<E> {
        State {
            path: self.path@,
            weights: self.weights@.map_values(|info: WeightInfo| info@),
            bench: self.bench,
            tensors: self.tensors@.map_values(|t: Tensor<E>| t@),
            next: self.next,
            report: texts(self.report@),
        }
    }
}

impl<E: Scalar> Context<E> {
    /// Whether every name is noted once.
    pub closed spec fn tidy(&self) -> bool {
        forall|w: u64| #[trigger]
            self.weights@.contains_key(w) ==> texts(self.weights@[w].names@).no_duplicates()
    }

    /// Whether the cells belong together.
    pub open spec fn wf(&self) -> bool {
        self.tidy() && self@.consistent()
    }

    /// Makes a context at the root of a model.
    pub fn new(bench: bool) -> (ctx: Self)
        ensures
            ctx.wf(),
            ctx@ == State::<E>::fresh(bench),
    {
        let path: String = "Ω".to_owned();
        proof {
            reveal_strlit("Ω");
            assert("Ω"@ =~= seq!['Ω']);
        }
        let ctx = Context {
            path,
            weights: HashMap::new(),
            bench,
            tensors: HashMap::new(),
            next: 0,
            report: Vec::new(),
        };
        assert(ctx@ =~= State::<E>::fresh(bench));
        ctx
    }

    /// Goes one level down.
    fn enter(&mut self, sub: &str)
        ensures
            final(self).tidy() == old(self).tidy(),
            final(self)@ == old(self)@.entered(sub@),
    {
        proof {
            reveal_strlit(".");
        }
        self.path.append(".");
        self.path.append(sub);
        assert(self@ =~= old(self)@.entered(sub@));
    }

    /// Goes one level up, from `sub`.
    fn leave(&mut self, sub: &str)
        requires
            sub@.len() < old(self)@.path.len(),
        ensures
            final(self).tidy() == old(self).tidy(),
            final(self)@ == old(self)@.left(sub@),
    {
        let len = self.path.as_str().unicode_len() - sub.unicode_len() - 1;
        let path: String = self.path.as_str().substring_char(0, len).to_owned();
        self.path = path;
        assert(self@ =~= old(self)@.left(sub@));
    }

    /// Runs `f` one level down.
    pub fn trap<T, F: FnOnce(&mut Self) -> T>(&mut self, sub: &str, f: F) -> (ans: T)
        requires
            old(self).wf(),
            forall|c: &mut Self|
                (*c).wf() && (*c)@ == old(self)@.entered(sub@) ==> call_requires(f, (c,)),
            forall|c: &mut Self, ans: T|
                (*c).wf() && (*c)@ == old(self)@.entered(sub@) && #[trigger] call_ensures(
                    f,
                    (c,),
                    ans,
                ) ==> final(c).wf() && final(c)@.within(sub@),
        ensures
            final(self).wf(),
            exists|c: &mut Self|
                {
                    &&& (*c).wf()
                    &&& (*c)@ == old(self)@.entered(sub@)
                    &&& #[trigger] call_ensures(f, (c,), ans)
                    &&& final(self)@ == final(c)@.left(sub@)
                },
    {
        self.enter(sub);
        let ans = f(self);
        self.leave(sub);
        ans
    }

    /// Takes a tensor in, to be shared.
    pub fn share(&mut self, tensor: Tensor<E>) -> (cell: Shared)
        requires
            old(self).wf(),
            tensor.wf(),
            old(self)@.next < u64::MAX,
        ensures
            final(self).wf(),
            final(self)@ == old(self)@.with_shared(tensor@),
            cell.id == old(self)@.next,
    {
        let id = self.next;
        self.tensors.insert(id, tensor);
        self.next = id + 1;
        assert(self@ =~= old(self)@.with_shared(tensor@));
        Shared { id }
    }

    /// Looks at a shared tensor.
    pub fn read(&self, cell: Shared) -> (tensor: &Tensor<E>)
        requires
            self@.tensors.contains_key(cell.id),
        ensures
            tensor@ == self@.tensors[cell.id],
    {
        self.tensors.get(&cell.id).unwrap()
    }

    /// Takes a shared tensor out of its cell.
    pub(crate) fn take(&mut self, cell: Shared) -> (tensor: Tensor<E>)
        requires
            old(self)@.tensors.contains_key(cell.id),
        ensures
            tensor@ == old(self)@.tensors[cell.id],
            final(self).tidy() == old(self).tidy(),
            final(self)@ == old(self)@.without_tensor(cell.id),
    {
        let tensor = self.tensors.remove(&cell.id).unwrap();
        assert(self@ =~= old(self)@.without_tensor(cell.id));
        tensor
    }

    /// Puts a tensor into a cell.
    pub(crate) fn put(&mut self, cell: Shared, tensor: Tensor<E>)
        ensures
            final(self).tidy() == old(self).tidy(),
            final(self)@ == old(self)@.with_tensor(cell.id, tensor@),
    {
        self.tensors.insert(cell.id, tensor);
        assert(self@ =~= old(self)@.with_tensor(cell.id, tensor@));
    }

    /// Replaces what a shared tensor holds by other elements of the same form.
    pub fn write(&mut self, cell: Shared, tensor: Tensor<E>)
        requires
            old(self).wf(),
            old(self)@.tensors.contains_key(cell.id),
            tensor.wf(),
            tensor@.same_form(old(self)@.tensors[cell.id]),
        ensures
            final(self).wf(),
            final(self)@ == old(self)@.with_tensor(cell.id, tensor@),
    {
        self.put(cell, tensor);
    }

    /// Registers a weight under the name that it has here, and returns its
    /// gradient: the one that it has, or zeros.
    pub fn write_gradient(&mut self, name: &str, weight: Shared) -> (gradient: Shared)
        requires
            old(self).wf(),
            old(self)@.tensors.contains_key(weight.id),
            old(self)@.info(weight.id).gradient is Some || old(self)@.next < u64::MAX,
        ensures
            final(self).wf(),
            final(self)@ == old(self)@.with_gradient(name@, weight.id),
            gradient.id == old(self)@.gradient_cell(weight.id),
    {
        let ghost before = self@;
        proof {
            reveal_strlit(":");
        }
        let mut full_name = self.path.clone();
        full_name.append(":");
        full_name.append(name);
        assert(full_name@ =~= before.full_name(name@));
        let mut info = match self.weights.remove(&weight.id) {
            Some(info) => info,
            None => {
                let info = WeightInfo { gradient: None, names: Vec::new() };
                assert(texts(info.names@) =~= Seq::empty());
                assert(info@.names =~= Set::empty());
                info
            },
        };
        assert(info@ == before.info(weight.id));
        info.record(full_name);
        let id = match info.gradient {
            Some(id) => id,
            None => {
                let zeros = self.read(weight).zeroed_like();
                let id = self.next;
                self.tensors.insert(id, zeros);
                self.next = id + 1;
                info.gradient = Some(id);
                id
            },
        };
        self.weights.insert(weight.id, info);
        assert(self@ =~= before.with_gradient(name@, weight.id));
        Shared { id }
    }

    /// Lists the cells of the weights, in no given order.
    fn weight_cells(&self) -> (cells: Vec<u64>)
        ensures
            cells@.no_duplicates(),
            cells@.to_set() == self@.weights.dom(),
    {
        let ghost order = vstd::std_specs::iter::IteratorSpec::remaining(
            &vstd::std_specs::hash::spec_keys_iter(&self.weights),
        );
        let mut cells: Vec<u64> = Vec::new();
        for cell in it: self.weights.keys()
            invariant
                it.seq() == order,
                cells@.len() == it.index(),
                forall|i: int| 0 <= i < cells@.len() ==> #[trigger] cells@[i] == *order[i],
        {
            cells.push(*cell);
        }
        assert(cells@ =~= order.unref());
        assert(self@.weights.dom() =~= self.weights@.dom());
        cells
    }

    /// Drops every gradient.  The cells stay as they are, for those who still
    /// hold them.
    pub fn zero_grad(&mut self)
        requires
            old(self).wf(),
        ensures
            final(self).wf(),
            final(self)@ == old(self)@.without_gradients(),
    {
        let ghost before = self@;
        let cells = self.weight_cells();
        let mut i: usize = 0;
        while i < cells.len()
            invariant
                i <= cells.len(),
                self.tidy(),
                cells@.no_duplicates(),
                cells@.to_set() == before.weights.dom(),
                self@ == (State { weights: self@.weights, ..before }),
                self@.weights.dom() == before.weights.dom(),
                forall|j: int|
                    0 <= j < i ==> self@.weights[#[trigger] cells@[j]] == (Info {
                        gradient: None,
                        names: before.weights[cells@[j]].names,
                    }),
                forall|j: int|
                    i <= j < cells.len() ==> self@.weights[#[trigger] cells@[j]]
                        == before.weights[cells@[j]],
            decreases cells.len() - i,
        {
            let cell = cells[i];
            let ghost now = self@;
            assert(before.weights.dom().contains(cells@[i as int]));
            assert(now.weights.contains_key(cell));
            let mut info = self.weights.remove(&cell).unwrap();
            info.gradient = None;
            self.weights.insert(cell, info);
            i += 1;
            assert(self@.weights =~= now.weights.insert(
                cell,
                Info { gradient: None, names: now.weights[cell].names },
            ));
        }
        proof {
            assert forall|w: u64| #[trigger] before.weights.contains_key(w) implies exists|j: int|
                0 <= j < cells.len() && cells@[j] == w by {
                assert(cells@.to_set().contains(w));
            }
            assert(self@.weights =~= before.without_gradients().weights);
        }
    }

    /// Gives up a cell that is neither a weight nor a gradient, and hands out the
    /// tensor that it held.
    pub fn discard(&mut self, cell: Shared) -> (tensor: Tensor<E>)
        requires
            old(self).wf(),
            old(self)@.tensors.contains_key(cell.id),
            !old(self)@.weights.contains_key(cell.id),
            !old(self)@.is_gradient(cell.id),
        ensures
            final(self).wf(),
            final(self)@ == old(self)@.without_tensor(cell.id),
            tensor@ == old(self)@.tensors[cell.id],
    {
        self.take(cell)
    }

    /// Has the optimizer update every weight by its gradient.
    pub fn update<O: Optimizer<E>>(&mut self, optimizer: &mut O)
        requires
            old(self).wf(),
            forall|w: u64| #[trigger]
                old(self)@.weights.contains_key(w) ==> old(self)@.weights[w].gradient is Some,
        ensures
            final(self).wf(),
            updated((*old(optimizer), old(self)@), (*final(optimizer), final(self)@)),
    {
        let ghost before = self@;
        let cells = self.weight_cells();
        let ghost mut stages = seq![(*optimizer, self@)];
        let mut i: usize = 0;
        while i < cells.len()
            invariant
                i <= cells.len(),
                self.wf(),
                cells@.to_set() == before.weights.dom(),
                forall|w: u64| #[trigger]
                    before.weights.contains_key(w) ==> before.weights[w].gradient is Some,
                self@.weights == before.weights,
                walks(cells@.take(i as int), stages),
                stages[0] == (*old(optimizer), before),
                stages.last() == (*optimizer, self@),
            decreases cells.len() - i,
        {
            let cell = Shared { id: cells[i] };
            let ghost now = self@;
            assert(cells@.to_set().contains(cells@[i as int]));
            assert(now.weights.contains_key(cell.id));
            assert(before.weights.contains_key(cell.id));
            let gradient = Shared { id: self.weights.get(&cell.id).unwrap().gradient.unwrap() };
            let mut weight = self.take(cell);
            let mut slope = self.take(gradient);
            optimizer.update(&mut weight, &mut slope);
            self.put(cell, weight);
            self.put(gradient, slope);
            i += 1;
            proof {
                assert(self@ =~= now.with_tensor(cell.id, weight@).with_tensor(
                    gradient.id,
                    slope@,
                ));
                let order = cells@.take(i as int);
                let more = stages.push((*optimizer, self@));
                assert forall|j: int| 0 <= j < order.len() implies steps(
                    more[j],
                    #[trigger] order[j],
                    more[j + 1],
                ) by {
                    if j < i - 1 {
                        assert(cells@.take(i - 1)[j] == order[j]);
                    }
                }
                stages = more;
            }
        }
        assert(cells@.take(i as int) =~= cells@);
    }

    /// Makes a tensor that is to be filled.  Its elements are zero until then.
    pub fn tensor(&self, digit: DigitLayout, shape: &[usize]) -> (tensor: Tensor<E>)
        requires
            Tensor::<E>::addressable(digit, shape@),
        ensures
            tensor.wf(),
            tensor@ == Content::<E>::zeroed(digit, shape@),
    {
        self.tensor_zeroed(digit, shape)
    }

    /// Makes a tensor whose elements are all zero.
    pub fn tensor_zeroed(&self, digit: DigitLayout, shape: &[usize]) -> (tensor: Tensor<E>)
        requires
            Tensor::<E>::addressable(digit, shape@),
        ensures
            tensor.wf(),
            tensor@ == Content::<E>::zeroed(digit, shape@),
    {
        let mut dims: Vec<usize> = Vec::new();
        while dims.len() < shape.len()
            invariant
                dims.len() <= shape.len(),
                forall|i: int| 0 <= i < dims.len() ==> #[trigger] dims@[i] == shape@[i],
            decreases shape.len() - dims.len(),
        {
            dims.push(shape[dims.len()]);
        }
        assert(dims@ =~= shape@);
        Tensor::zeroed(digit, dims)
    }

    /// Says what is reported of a time: nothing, or a line.
    pub fn report_line(&self, elapsed: &str) -> (line: Option<String>)
        ensures
            line is Some <==> self@.bench,
            line matches Some(line) ==> line@ == self@.line(elapsed@),
    {
        if self.bench {
            proof {
                reveal_strlit(": ");
            }
            let mut line = self.path.clone();
            line.append(": ");
            line.append(elapsed);
            assert(line@ =~= self@.line(elapsed@));
            Some(line)
        } else {
            None
        }
    }

    /// Reports the time that has passed since `start`, if times are reported.
    pub(crate) fn record(&mut self, start: Instant)
        ensures
            final(self).tidy() == old(self).tidy(),
            old(self)@.benched(final(self)@),
    {
        let took = start.elapsed();
        let ghost before = self@;
        if let Some(line) = self.report_line(show(took).as_str()) {
            self.report.push(line);
            assert(texts(self.report@) =~= before.report.push(line@));
        }
        assert(self@ =~= before.timed(took));
    }

    /// Runs `f`, and reports how long it took, if times are reported.
    pub fn bench<F: FnOnce()>(&mut self, f: F)
        requires
            old(self).wf(),
            call_requires(f, ()),
        ensures
            final(self).wf(),
            old(self)@.benched(final(self)@),
            call_ensures(f, (), ()),
    {
        let start = Instant::now();
        f();
        self.record(start);
    }

    /// Hands out the lines reported so far.
    pub fn take_report(&mut self) -> (lines: Vec<String>)
        requires
            old(self).wf(),
        ensures
            final(self).wf(),
            lines@.map_values(|line: String| line@) == old(self)@.report,
            final(self)@ == (State { report: Seq::empty(), ..old(self)@ }),
    {
        let mut lines: Vec<String> = Vec::new();
        lines.append(&mut self.report);
        assert(texts(lines@) =~= old(self)@.report);
        assert(self@ =~= State { report: Seq::empty(), ..old(self)@ });
        lines
    }

    /// Returns the gradient of a weight, where there is one.
    pub fn gradient(&self, weight: Shared) -> (gradient: Option<Shared>)
        ensures
            gradient == match self@.info(weight.id).gradient {
                Some(id) => Some(Shared { id }),
                None => None,
            },
    {
        match self.weights.get(&weight.id) {
            Some(info) => match info.gradient {
                Some(id) => Some(Shared { id }),
                None => None,
            },
            None => None,
        }
    }

    /// Returns the names under which a weight was used, each once.
    pub fn names(&self, weight: Shared) -> (names: Vec<String>)
        requires
            self.wf(),
        ensures
            names@.map_values(|name: String| name@).no_duplicates(),
            names@.map_values(|name: String| name@).to_set() == self@.info(weight.id).names,
    {
        let mut names: Vec<String> = Vec::new();
        if let Some(info) = self.weights.get(&weight.id) {
            while names.len() < info.names.len()
                invariant
                    names.len() <= info.names.len(),
                    forall|i: int|
                        0 <= i < names.len() ==> #[trigger] names@[i]@ == info.names@[i]@,
                decreases info.names.len() - names.len(),
            {
                names.push(info.names[names.len()].clone());
            }
            assert(texts(names@) =~= texts(info.names@));
        } else {
            assert(texts(names@) =~= Seq::empty());
            assert(texts(names@).to_set() =~= Set::empty());
        }
        names
    }

    /// Makes a network one level down.
    pub fn init<NN: NeuralNetwork<E>>(&mut self, name: &str, init: NN::Init) -> (network: NN)
        requires
            old(self).wf(),
            NN::init_accepts(init, old(self)@.entered(name@)),
        ensures
            final(self).wf(),
            exists|after: State<E>|
                {
                    &&& #[trigger] NN::inits(init, old(self)@.entered(name@), network, after)
                    &&& final(self)@ == after.left(name@)
                },
            final(self)@.path == old(self)@.path,
    {
        self.enter(name);
        let network = NN::init(init, self);
        let ghost after = self@;
        self.leave(name);
        assert(self@.path =~= old(self)@.path);
        network
    }

    /// Has a network go forward one level down.
    pub fn forward<NN: NeuralNetwork<E>>(
        &mut self,
        name: &str,
        network: &mut NN,
        inputs: Vec<Rc<Tensor<E>>>,
    ) -> (outputs: Vec<Rc<Tensor<E>>>)
        requires
            old(self).wf(),
            old(network).forward_accepts(contents(inputs@), old(self)@.entered(name@)),
        ensures
            final(self).wf(),
            exists|after: State<E>|
                {
                    &&& #[trigger] NN::forwards(
                        (*old(network), old(self)@.entered(name@)),
                        contents(inputs@),
                        (*final(network), after),
                        contents(outputs@),
                    )
                    &&& final(self)@ == after.left(name@)
                },
            final(self)@.path == old(self)@.path,
    {
        self.enter(name);
        let outputs = network.forward(inputs, self);
        let ghost after = self@;
        self.leave(name);
        assert(self@.path =~= old(self)@.path);
        outputs
    }

    /// Has a network go backward one level down.
    pub fn backward<NN: NeuralNetwork<E>>(
        &mut self,
        name: &str,
        network: &mut NN,
        inputs: Vec<Rc<Tensor<E>>>,
    ) -> (outputs: Vec<Rc<Tensor<E>>>)
        requires
            old(self).wf(),
            old(network).backward_accepts(contents(inputs@), old(self)@.entered(name@)),
        ensures
            final(self).wf(),
            exists|after: State<E>|
                {
                    &&& #[trigger] NN::backwards(
                        (*old(network), old(self)@.entered(name@)),
                        contents(inputs@),
                        (*final(network), after),
                        contents(outputs@),
                    )
                    &&& final(self)@ == after.left(name@)
                },
            final(self)@.path == old(self)@.path,
    {
        self.enter(name);
        let outputs = network.backward(inputs, self);
        let ghost after = self@;
        self.leave(name);
        assert(self@.path =~= old(self)@.path);
        outputs
    }
}

} // verus!
