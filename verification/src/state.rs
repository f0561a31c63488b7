//! What a context holds, as a mathematical value.
use crate::scalar::Scalar;
use crate::tensor::Content;
use std::time::Duration;
use vstd::prelude::*;

verus! {

/// How a `Duration` is shown.
pub uninterp spec fn duration_text(took: Duration) -> Seq<char>;

/// What is known of a weight.
#[verifier::ext_equal]
pub ghost struct Info {
    /// The cell of its gradient.
    pub gradient: Option<u64>,
    /// The names under which it was used.
    pub names: Set<Seq<char>>,
}

/// What a context holds.
#[verifier::ext_equal]
pub ghost struct State<E> {
    /// Where the model is being walked, from its root.
    pub path: Seq<char>,
    /// The weights that have been used, by their cells.
    pub weights: Map<u64, Info>,
    /// Whether times are reported.
    pub bench: bool,
    /// The shared tensors, by their cells.
    pub tensors: Map<u64, Content<E>>,
    /// The first cell that was never used.
    pub next: u64,
    /// The lines reported so far.
    pub report: Seq<Seq<char>>,
}

impl<E: Scalar> State<E> {
    /// A new context.
    pub open spec fn fresh(bench: bool) -> Self {
        State {
            path: seq!['Ω'],
            weights: Map::empty(),
            bench,
            tensors: Map::empty(),
            next: 0,
            report: Seq::empty(),
        }
    }

    /// What is known of the weight in cell `w`; nothing where it was not used.
    pub open spec fn info(self, w: u64) -> Info {
        if self.weights.contains_key(w) {
            self.weights[w]
        } else {
            Info { gradient: None, names: Set::empty() }
        }
    }

    /// The cell of the gradient of the weight in cell `w`: the next one where
    /// there is none yet.
    pub open spec fn gradient_cell(self, w: u64) -> u64 {
        match self.info(w).gradient {
            Some(g) => g,
            None => self.next,
        }
    }

    /// Whether cell `g` is the gradient of a weight.
    pub open spec fn is_gradient(self, g: u64) -> bool {
        exists|w: u64| #[trigger]
            self.weights.contains_key(w) && self.weights[w].gradient == Some(g)
    }

    /// Whether the cells belong together: weights and gradients are held, no two
    /// weights have the same gradient, a gradient has the form of its weight, and
    /// cells are given out in turn.
    pub open spec fn consistent(self) -> bool {
        &&& forall|c: u64| #[trigger]
            self.tensors.contains_key(c) ==> c < self.next && self.tensors[c].wf()
        &&& forall|w: u64| #[trigger]
            self.weights.contains_key(w) ==> {
                &&& self.tensors.contains_key(w)
                &&& self.weights[w].gradient matches Some(g) ==> {
                    &&& g != w
                    &&& self.tensors.contains_key(g)
                    &&& self.tensors[g].same_form(self.tensors[w])
                }
            }
        &&& forall|v: u64, w: u64|
            #![trigger self.weights.contains_key(v), self.weights.contains_key(w)]
            self.weights.contains_key(v) && self.weights.contains_key(w)
                && self.weights[v].gradient is Some && self.weights[v].gradient
                == self.weights[w].gradient ==> v == w
    }

    /// What number `i` of the gradient of the weight in cell `w` stands for: zero
    /// where there is no gradient.
    pub open spec fn gradient_value(self, val: spec_fn(E) -> real, w: u64, i: int) -> real {
        if self.weights.contains_key(w) && self.weights[w].gradient is Some {
            val(self.tensors[self.weights[w].gradient->0].cells()[i])
        } else {
            0 as real
        }
    }

    /// Whether `after` knows the weight in cell `w` by the same gradient, which
    /// holds the same.
    pub open spec fn keeps_gradient(self, after: Self, w: u64) -> bool {
        &&& after.info(w).gradient == self.info(w).gradient
        &&& self.info(w).gradient matches Some(g) ==> after.tensors[g] == self.tensors[g]
    }

    /// One level further down.
    pub open spec fn entered(self, sub: Seq<char>) -> Self {
        State { path: self.path.push('.') + sub, ..self }
    }

    /// Whether the path ends in `sub`, behind a character of one byte.
    pub open spec fn within(self, sub: Seq<char>) -> bool {
        let at = self.path.len() - sub.len();
        &&& at > 0
        &&& self.path.skip(at) == sub
        &&& (self.path[at - 1] as u32) < 0x80
    }

    /// One level further up, from `sub`.
    pub open spec fn left(self, sub: Seq<char>) -> Self {
        State { path: self.path.take(self.path.len() - sub.len() - 1), ..self }
    }

    /// The full name of a weight that is called `name` here.
    pub open spec fn full_name(self, name: Seq<char>) -> Seq<char> {
        self.path.push(':') + name
    }

    /// With a gradient for the weight in cell `w`, which is called `name` here:
    /// the one that it has, or zeros.
    pub open spec fn with_gradient(self, name: Seq<char>, w: u64) -> Self {
        let info = self.info(w);
        let g = self.gradient_cell(w);
        let known = Info {
            gradient: Some(g),
            names: info.names.insert(self.full_name(name)),
        };
        let registered = State { weights: self.weights.insert(w, known), ..self };
        if info.gradient is Some {
            registered
        } else {
            State {
                tensors: self.tensors.insert(g, self.tensors[w].cleared()),
                next: (self.next + 1) as u64,
                ..registered
            }
        }
    }

    /// Without gradients.  What their cells hold stays there.
    pub open spec fn without_gradients(self) -> Self {
        State {
            weights: self.weights.map_values(
                |info: Info| Info { gradient: None, names: info.names },
            ),
            ..self
        }
    }

    /// Without cell `c`.
    pub open spec fn without_tensor(self, c: u64) -> Self {
        State { tensors: self.tensors.remove(c), ..self }
    }

    /// With one tensor more.
    pub open spec fn with_shared(self, content: Content<E>) -> Self {
        State {
            tensors: self.tensors.insert(self.next, content),
            next: (self.next + 1) as u64,
            ..self
        }
    }

    /// With another tensor in cell `c`.
    pub open spec fn with_tensor(self, c: u64, content: Content<E>) -> Self {
        State { tensors: self.tensors.insert(c, content), ..self }
    }

    /// The line that reports a time.
    pub open spec fn line(self, elapsed: Seq<char>) -> Seq<char> {
        self.path + seq![':', ' '] + elapsed
    }

    /// With a time reported, if times are.
    pub open spec fn timed(self, took: Duration) -> Self {
        if self.bench {
            State { report: self.report.push(self.line(duration_text(took))), ..self }
        } else {
            self
        }
    }

    /// Whether `after` is this with some time reported, if times are.
    pub open spec fn benched(self, after: Self) -> bool {
        exists|took: Duration| after == #[trigger] self.timed(took)
    }

    /// Going down and up again leads back.
    pub proof fn law_path_restored(self, sub: Seq<char>)
        ensures
            self.entered(sub).within(sub),
            self.entered(sub).left(sub) == self,
    {
        let down = self.entered(sub);
        assert(down.path.skip(down.path.len() - sub.len()) =~= sub);
        assert(down.left(sub).path =~= self.path);
    }

    /// Registering a weight twice under one name is registering it once.
    pub proof fn law_registered_once(self, name: Seq<char>, w: u64)
        ensures
            self.with_gradient(name, w).with_gradient(name, w) == self.with_gradient(name, w),
    {
        let once = self.with_gradient(name, w);
        let twice = once.with_gradient(name, w);
        assert(once.info(w).names.insert(once.full_name(name)) =~= once.info(w).names);
        assert(twice.weights =~= once.weights);
    }

    /// A weight keeps its gradient and what that holds under every other name.
    pub proof fn law_gradient_kept(self, name: Seq<char>, other: Seq<char>, w: u64)
        ensures
            ({
                let once = self.with_gradient(name, w);
                &&& once.gradient_cell(w) == self.gradient_cell(w)
                &&& once.with_gradient(other, w).gradient_cell(w) == once.gradient_cell(w)
                &&& once.with_gradient(other, w).tensors == once.tensors
            }),
    {
    }

    /// Registering a weight keeps what every tensor held, and the first gradient
    /// of a weight is all zeros, in the form of the weight.
    pub proof fn law_gradient_starts_at_zero(self, name: Seq<char>, w: u64)
        requires
            self.consistent(),
            self.tensors.contains_key(w),
        ensures
            ({
                let after = self.with_gradient(name, w);
                let g = self.gradient_cell(w);
                &&& forall|c: u64| #[trigger]
                    self.tensors.contains_key(c) ==> after.tensors.contains_key(c)
                        && after.tensors[c] == self.tensors[c]
                &&& after.tensors[g].same_form(self.tensors[w])
                &&& self.info(w).gradient is None ==> after.tensors[g]
                    == self.tensors[w].cleared()
            }),
    {
    }

    /// Two weights have two gradients.
    pub proof fn law_gradients_apart(
        self,
        name: Seq<char>,
        v: u64,
        other: Seq<char>,
        w: u64,
    )
        requires
            self.consistent(),
            self.tensors.contains_key(v),
            self.tensors.contains_key(w),
            self.next < u64::MAX,
            v != w,
        ensures
            ({
                let both = self.with_gradient(name, v).with_gradient(other, w);
                both.gradient_cell(v) != both.gradient_cell(w)
            }),
    {
        if self.info(v).gradient is Some && self.info(w).gradient is Some {
            assert(self.weights.contains_key(v) && self.weights.contains_key(w));
        }
        if self.weights.contains_key(v) && self.weights[v].gradient is Some {
            assert(self.tensors.contains_key(self.weights[v].gradient->0));
        }
        if self.weights.contains_key(w) && self.weights[w].gradient is Some {
            assert(self.tensors.contains_key(self.weights[w].gradient->0));
        }
    }

    /// Dropping the gradients keeps the weights, their names and what every cell
    /// holds, leaves no gradient, and dropping them once is enough.
    pub proof fn law_gradients_dropped(self)
        ensures
            ({
                let after = self.without_gradients();
                &&& after.weights.dom() == self.weights.dom()
                &&& forall|w: u64| #[trigger]
                    self.weights.contains_key(w) ==> after.info(w) == (Info {
                        gradient: None,
                        names: self.info(w).names,
                    })
                &&& after == (State { weights: after.weights, ..self })
                &&& after.without_gradients() == after
            }),
    {
        let after = self.without_gradients();
        assert(after.weights.dom() =~= self.weights.dom());
        assert(after.without_gradients().weights =~= after.weights);
    }

    /// The gradient of a weight starts at zero again once the gradients have been
    /// dropped: in a new cell, while the earlier one keeps what it held.
    pub proof fn law_gradient_starts_again(self, name: Seq<char>, w: u64)
        requires
            self.consistent(),
            self.weights.contains_key(w),
        ensures
            ({
                let dropped = self.without_gradients();
                let again = dropped.with_gradient(name, w);
                let g = dropped.gradient_cell(w);
                &&& !self.tensors.contains_key(g)
                &&& again.tensors[g] == self.tensors[w].cleared()
                &&& again.info(w).names == self.info(w).names.insert(self.full_name(name))
                &&& forall|c: u64| #[trigger]
                    self.tensors.contains_key(c) ==> again.tensors.contains_key(c)
                        && again.tensors[c] == self.tensors[c]
            }),
    {
        self.law_gradients_dropped();
    }

    /// Where times are not reported, nothing changes; where they are, one line is
    /// added, which starts with the path.
    pub proof fn law_times_reported(self, after: Self)
        requires
            self.benched(after),
        ensures
            !self.bench ==> after == self,
            self.bench ==> {
                &&& after.report.drop_last() == self.report
                &&& self.path.is_prefix_of(after.report.last())
                &&& after == (State { report: after.report, ..self })
            },
    {
        let took = choose|took: Duration| after == #[trigger] self.timed(took);
        if self.bench {
            let line = self.line(duration_text(took));
            assert(after.report.drop_last() =~= self.report);
            assert(line.subrange(0, self.path.len() as int) =~= self.path);
        }
    }

    /// A new context stands at the root, and holds and knows nothing.
    pub proof fn law_fresh(bench: bool)
        ensures
            ({
                let new = State::<E>::fresh(bench);
                &&& new.path.len() == 1 && new.path[0] == 'Ω'
                &&& new.bench == bench
                &&& new.next == 0
                &&& new.report.len() == 0
                &&& forall|c: u64| !(#[trigger] new.tensors.contains_key(c))
                &&& forall|w: u64| !(#[trigger] new.weights.contains_key(w))
                &&& new.consistent()
            }),
    {
    }

    /// Going down adds a dot and the name to the path; going up from a name takes the
    /// name and the character before it away.  Nothing else changes.
    pub proof fn law_path(self, root: Seq<char>, mark: char, sub: Seq<char>)
        ensures
            self.entered(sub).path == self.path + seq!['.'] + sub,
            self.entered(sub) == (State { path: self.entered(sub).path, ..self }),
            self.path == root + seq![mark] + sub ==> self.left(sub).path == root,
            self.path == root + seq![mark] + sub && (mark as u32) < 0x80 && root.len() > 0
                ==> self.within(sub),
            self.left(sub) == (State { path: self.left(sub).path, ..self }),
    {
        assert(self.entered(sub).path =~= self.path + seq!['.'] + sub);
        if self.path == root + seq![mark] + sub {
            assert(self.left(sub).path =~= root);
            assert(self.path.skip(self.path.len() - sub.len()) =~= sub);
        }
    }

    /// The full name of a weight is the path, a colon and its name, so that two names
    /// here are two full names.
    pub proof fn law_full_name(self, name: Seq<char>, other: Seq<char>)
        ensures
            self.full_name(name) == self.path + seq![':'] + name,
            self.full_name(name) == self.full_name(other) ==> name == other,
    {
        let at = self.path.len() as int + 1;
        assert(self.full_name(name) =~= self.path + seq![':'] + name);
        assert(self.full_name(name).skip(at) =~= name);
        assert(self.full_name(other).skip(at) =~= other);
    }

    /// A time that is reported is one more line: the path, a colon, a blank and the
    /// time.
    pub proof fn law_line(self, after: Self) -> (took: Duration)
        requires
            self.benched(after),
        ensures
            after.report == if self.bench {
                self.report.push(self.path + seq![':', ' '] + duration_text(took))
            } else {
                self.report
            },
            after == (State { report: after.report, ..self }),
    {
        let took = choose|took: Duration| after == #[trigger] self.timed(took);
        assert(self.line(duration_text(took)) =~= self.path + seq![':', ' '] + duration_text(took));
        took
    }

    /// Registering a weight adds its full name to those that it is known by.  A
    /// gradient that it has is kept; where it has none, the next cell becomes its
    /// gradient, all zeros in the form of the weight.  No other weight and no other cell
    /// changes.
    pub proof fn law_registered(self, name: Seq<char>, w: u64)
        requires
            self.consistent(),
            self.tensors.contains_key(w),
            self.next < u64::MAX,
        ensures
            ({
                let after = self.with_gradient(name, w);
                let known = self.weights.contains_key(w);
                &&& after.weights.contains_key(w)
                &&& forall|text: Seq<char>| #[trigger]
                    after.weights[w].names.contains(text) <==> text == self.path + seq![':'] + name
                        || (known && self.weights[w].names.contains(text))
                &&& forall|v: u64|
                    v != w ==> (#[trigger] after.weights.contains_key(v)
                        <==> self.weights.contains_key(v)) && (self.weights.contains_key(v)
                        ==> after.weights[v] == self.weights[v])
                &&& known && self.weights[w].gradient is Some ==> {
                    &&& after.weights[w].gradient == self.weights[w].gradient
                    &&& after == (State { weights: after.weights, ..self })
                }
                &&& !known || self.weights[w].gradient is None ==> {
                    &&& after.weights[w].gradient == Some(self.next)
                    &&& after.next == self.next + 1
                    &&& after.tensors.contains_key(self.next)
                    &&& after.tensors[self.next].same_form(self.tensors[w])
                    &&& self.tensors[w].is_real() ==> forall|i: int|
                        0 <= i < self.tensors[w].cells().len()
                            ==> #[trigger] after.tensors[self.next].cells()[i] == E::zero_spec()
                    &&& forall|c: u64|
                        c != self.next ==> (#[trigger] after.tensors.contains_key(c)
                            <==> self.tensors.contains_key(c)) && (self.tensors.contains_key(c)
                            ==> after.tensors[c] == self.tensors[c])
                    &&& after.path == self.path && after.bench == self.bench && after.report
                        == self.report
                }
            }),
    {
        let after = self.with_gradient(name, w);
        self.law_full_name(name, name);
        assert forall|text: Seq<char>| #[trigger]
            after.weights[w].names.contains(text) <==> text == self.path + seq![':'] + name || (
            self.weights.contains_key(w) && self.weights[w].names.contains(text)) by {
        }
    }

    /// A tensor that is taken in gets the next cell; one that is written gets its own;
    /// one that is taken out leaves none.  No other cell changes.
    pub proof fn law_cells(self, c: u64, content: Content<E>, other: u64)
        requires
            self.next < u64::MAX,
        ensures
            ({
                let shared = self.with_shared(content);
                &&& shared.tensors.contains_key(self.next)
                &&& shared.tensors[self.next] == content
                &&& shared.next == self.next + 1
                &&& other != self.next ==> (shared.tensors.contains_key(other)
                    <==> self.tensors.contains_key(other)) && shared.tensors[other]
                    == self.tensors[other]
                &&& shared == (State { tensors: shared.tensors, next: shared.next, ..self })
            }),
            ({
                let written = self.with_tensor(c, content);
                &&& written.tensors.contains_key(c)
                &&& written.tensors[c] == content
                &&& other != c ==> (written.tensors.contains_key(other)
                    <==> self.tensors.contains_key(other)) && written.tensors[other]
                    == self.tensors[other]
                &&& written == (State { tensors: written.tensors, ..self })
            }),
            ({
                let without = self.without_tensor(c);
                &&& !without.tensors.contains_key(c)
                &&& other != c ==> (without.tensors.contains_key(other)
                    <==> self.tensors.contains_key(other)) && (self.tensors.contains_key(other)
                    ==> without.tensors[other] == self.tensors[other])
                &&& without == (State { tensors: without.tensors, ..self })
            }),
    {
    }

    /// What is known of a weight is what was recorded of it; of a cell that was never
    /// used as a weight, neither a gradient nor a name is known.
    pub proof fn law_known(self, w: u64)
        ensures
            self.weights.contains_key(w) ==> self.info(w) == self.weights[w],
            !self.weights.contains_key(w) ==> self.info(w).gradient is None,
            !self.weights.contains_key(w) ==> forall|name: Seq<char>|
                !(#[trigger] self.info(w).names.contains(name)),
    {
    }
}

} // verus!
