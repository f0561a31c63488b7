//! Tensors: a shape, a digit layout, and the elements in row-major order.
use crate::digit::{digit_bytes, f32_digit, real32, same_digit, u16_digit, unsigned16};
use crate::scalar::Scalar;
use crate::vector::{accumulate, accumulated, overwrite, overwritten, segment, zero_vec, zeros};
use digit_layout::DigitLayout;
use vstd::prelude::*;

verus! {

/// The number of elements of a tensor of this shape.
pub open spec fn size(shape: Seq<usize>) -> nat
    decreases shape.len(),
{
    if shape.len() == 0 {
        1
    } else {
        size(shape.drop_last()) * (shape.last() as nat)
    }
}

/// The size of a vector.
pub proof fn lemma_size1(shape: Seq<usize>)
    requires
        shape.len() == 1,
    ensures
        size(shape) == shape[0],
{
    reveal_with_fuel(size, 2);
}

/// The size of a matrix.
pub proof fn lemma_size2(shape: Seq<usize>)
    requires
        shape.len() == 2,
    ensures
        size(shape) == shape[0] * shape[1],
{
    lemma_size1(shape.drop_last());
    assert(shape.drop_last()[0] == shape[0]);
}

/// The size of a tensor of rank three.
pub proof fn lemma_size3(shape: Seq<usize>)
    requires
        shape.len() == 3,
    ensures
        size(shape) == shape[0] * shape[1] * shape[2],
{
    lemma_size2(shape.drop_last());
    assert(shape.drop_last()[0] == shape[0] && shape.drop_last()[1] == shape[1]);
}

/// The size of a tensor of rank four.
pub proof fn lemma_size4(shape: Seq<usize>)
    requires
        shape.len() == 4,
    ensures
        size(shape) == shape[0] * shape[1] * shape[2] * shape[3],
{
    lemma_size3(shape.drop_last());
    assert(shape.drop_last()[0] == shape[0] && shape.drop_last()[1] == shape[1]
        && shape.drop_last()[2] == shape[2]);
}

/// Counts the elements of a tensor of this shape, if their number fits.
pub fn count(shape: &Vec<usize>) -> (n: Option<usize>)
    ensures
        n == if size(shape@) <= usize::MAX {
            Some(size(shape@) as usize)
        } else {
            None
        },
{
    let mut n: Option<usize> = Some(1);
    let mut i: usize = 0;
    while i < shape.len()
        invariant
            i <= shape.len(),
            n == (if size(shape@.take(i as int)) <= usize::MAX {
                Some(size(shape@.take(i as int)) as usize)
            } else {
                None
            }),
        decreases shape.len() - i,
    {
        let d = shape[i];
        proof {
            let next = shape@.take(i + 1);
            assert(next.drop_last() =~= shape@.take(i as int));
            let before = size(shape@.take(i as int));
            assert(size(next) == before * (d as nat));
            if d == 0 {
                assert(before * (d as nat) == 0) by (nonlinear_arith)
                    requires
                        d == 0,
                ;
            } else {
                assert(before * (d as nat) >= before) by (nonlinear_arith)
                    requires
                        d > 0,
                ;
            }
        }
        n = if d == 0 {
            Some(0)
        } else {
            match n {
                Some(v) => v.checked_mul(d),
                None => None,
            }
        };
        i += 1;
    }
    assert(shape@.take(i as int) =~= shape@);
    n
}

/// The elements of a tensor.
enum Data<E> {
    Real(Vec<E>),
    Index(Vec<u16>),
    Raw(Vec<u8>),
}

/// A tensor.
///
/// Elements whose digit layout is the single precision number are numbers of
/// type `E`; those whose layout is the 16-bit unsigned integer are integers.
/// Elements of any other layout are kept as bytes.
pub struct Tensor<E> {
    digit: DigitLayout,
    shape: Vec<usize>,
    data: Data<E>,
}

/// The elements of a tensor, in row-major order.
#[verifier::ext_equal]
pub ghost enum Elements<E> {
    /// Numbers.
    Real(Seq<E>),
    /// 16-bit unsigned integers.
    Index(Seq<u16>),
    /// The bytes of elements that are neither.
    Raw(Seq<u8>),
}

/// What a tensor holds.
#[verifier::ext_equal]
pub ghost struct Content<E> {
    /// The digit layout of the elements.
    pub digit: DigitLayout,
    /// The extents, outermost first.
    pub dims: Seq<usize>,
    /// The elements.
    pub elements: Elements<E>,
}

impl<E: Scalar> Content<E> {
    /// Whether the elements are numbers.
    pub open spec fn is_real(self) -> bool {
        self.elements is Real
    }

    /// Whether the elements are 16-bit unsigned integers.
    pub open spec fn is_index(self) -> bool {
        self.elements is Index
    }

    /// The numbers, in row-major order.
    pub open spec fn cells(self) -> Seq<E> {
        self.elements->Real_0
    }

    /// The integers, in row-major order.
    pub open spec fn tokens(self) -> Seq<u16> {
        self.elements->Index_0
    }

    /// Whether this is the well-formed content of a tensor of numbers.
    pub open spec fn holds_reals(self) -> bool {
        self.wf() && self.is_real()
    }

    /// Whether this is the well-formed content of a tensor of integers.
    pub open spec fn holds_tokens(self) -> bool {
        self.wf() && self.is_index()
    }

    /// Whether the digit layout, the shape and the kind of the elements are the
    /// same.
    pub open spec fn same_form(self, other: Self) -> bool {
        &&& self.digit == other.digit
        &&& self.dims == other.dims
        &&& self.is_real() == other.is_real()
        &&& self.is_index() == other.is_index()
    }

    /// The content of the same form whose elements are all zero.
    pub open spec fn cleared(self) -> Self {
        let elements = match self.elements {
            Elements::Real(cells) => Elements::Real(zeros::<E>(cells.len() as int)),
            Elements::Index(tokens) => Elements::Index(Seq::new(tokens.len(), |i: int| 0u16)),
            Elements::Raw(bytes) => Elements::Raw(Seq::new(bytes.len(), |i: int| 0u8)),
        };
        Content { elements, ..self }
    }

    /// The content with other numbers.
    pub open spec fn with_cells(self, cells: Seq<E>) -> Self {
        Content { elements: Elements::Real(cells), ..self }
    }

    /// Whether the elements are those that the shape and the digit layout ask for.
    pub open spec fn wf(self) -> bool {
        match self.elements {
            Elements::Real(cells) => self.digit == f32_digit() && cells.len() == size(self.dims),
            Elements::Index(tokens) => self.digit == u16_digit() && tokens.len() == size(self.dims),
            Elements::Raw(bytes) => {
                &&& self.digit != f32_digit()
                &&& self.digit != u16_digit()
                &&& bytes.len() == digit_bytes(self.digit) * size(self.dims)
            },
        }
    }

    /// The content of this digit layout and shape whose elements are all zero.
    pub open spec fn zeroed(digit: DigitLayout, dims: Seq<usize>) -> Self {
        let elements = if digit == f32_digit() {
            Elements::Real(zeros::<E>(size(dims) as int))
        } else if digit == u16_digit() {
            Elements::Index(Seq::new(size(dims), |i: int| 0u16))
        } else {
            Elements::Raw(Seq::new(digit_bytes(digit) as nat * size(dims), |i: int| 0u8))
        };
        Content { digit, dims, elements }
    }
}

impl<E: Scalar> View for Tensor<E> {
    type V = Content<E>;

    closed spec fn view(&self) -> Content<E> {
        Content {
            digit: self.digit,
            dims: self.shape@,
            elements: match self.data {
                Data::Real(v) => Elements::Real(v@),
                Data::Index(v) => Elements::Index(v@),
                Data::Raw(v) => Elements::Raw(v@),
            },
        }
    }
}

impl<E: Scalar> Tensor<E> {
    /// The digit layout of the elements.
    #[verifier::inline]
    pub open spec fn digit_spec(&self) -> DigitLayout {
        self@.digit
    }

    /// The extents, outermost first.
    #[verifier::inline]
    pub open spec fn dims(&self) -> Seq<usize> {
        self@.dims
    }

    /// Whether the elements are numbers.
    #[verifier::inline]
    pub open spec fn is_real(&self) -> bool {
        self@.is_real()
    }

    /// Whether the elements are 16-bit unsigned integers.
    #[verifier::inline]
    pub open spec fn is_index(&self) -> bool {
        self@.is_index()
    }

    /// The numbers, in row-major order.
    #[verifier::inline]
    pub open spec fn cells(&self) -> Seq<E> {
        self@.cells()
    }

    /// The integers, in row-major order.
    #[verifier::inline]
    pub open spec fn tokens(&self) -> Seq<u16> {
        self@.tokens()
    }

    /// Whether the elements are those that the shape and the digit layout ask for.
    #[verifier::inline]
    pub open spec fn wf(&self) -> bool {
        self@.wf()
    }

    /// Whether this is a well-formed tensor of numbers.
    #[verifier::inline]
    pub open spec fn holds_reals(&self) -> bool {
        self@.holds_reals()
    }

    /// Whether this is a well-formed tensor of integers.
    #[verifier::inline]
    pub open spec fn holds_tokens(&self) -> bool {
        self@.holds_tokens()
    }

    /// Whether a tensor of this digit layout and shape can be addressed.
    pub open spec fn addressable(digit: DigitLayout, shape: Seq<usize>) -> bool {
        &&& size(shape) <= usize::MAX
        &&& digit == f32_digit() || digit == u16_digit() || digit_bytes(digit) * size(shape)
            <= usize::MAX
    }

    /// Makes a tensor of numbers; `None` where there are not as many as the
    /// shape asks for.
    pub fn from_reals(shape: Vec<usize>, cells: Vec<E>) -> (t: Option<Self>)
        ensures
            t is Some <==> cells@.len() == size(shape@),
            t matches Some(t) ==> t.holds_reals() && t.dims() == shape@ && t.cells() == cells@,
    {
        let len = cells.len();
        match count(&shape) {
            Some(n) if n == len => Some(
                Tensor { digit: real32(), shape, data: Data::Real(cells) },
            ),
            _ => None,
        }
    }

    /// Makes a tensor of integers; `None` where there are not as many as the
    /// shape asks for.
    pub fn from_tokens(shape: Vec<usize>, tokens: Vec<u16>) -> (t: Option<Self>)
        ensures
            t is Some <==> tokens@.len() == size(shape@),
            t matches Some(t) ==> t.holds_tokens() && t.dims() == shape@ && t.tokens() == tokens@,
    {
        let len = tokens.len();
        match count(&shape) {
            Some(n) if n == len => Some(
                Tensor { digit: unsigned16(), shape, data: Data::Index(tokens) },
            ),
            _ => None,
        }
    }

    /// Makes a tensor whose elements are all zero.
    pub fn zeroed(digit: DigitLayout, shape: Vec<usize>) -> (t: Self)
        requires
            Self::addressable(digit, shape@),
        ensures
            t.wf(),
            t@ == Content::<E>::zeroed(digit, shape@),
    {
        let n: usize = match count(&shape) {
            Some(n) => n,
            None => 0,
        };
        if same_digit(digit, real32()) {
            Tensor { digit, shape, data: Data::Real(zero_vec(n)) }
        } else if same_digit(digit, unsigned16()) {
            let tokens: Vec<u16> = vec![0; n];
            Tensor { digit, shape, data: Data::Index(tokens) }
        } else {
            let bytes: Vec<u8> = vec![0; digit.nbytes() * n];
            Tensor { digit, shape, data: Data::Raw(bytes) }
        }
    }

    /// Makes a tensor of the same form whose elements are all zero.
    pub fn zeroed_like(&self) -> (t: Self)
        ensures
            t@ == self@.cleared(),
            t.wf() == self.wf(),
    {
        let data = match &self.data {
            Data::Real(v) => Data::Real(zero_vec(v.len())),
            Data::Index(v) => {
                let tokens: Vec<u16> = vec![0; v.len()];
                Data::Index(tokens)
            },
            Data::Raw(v) => {
                let bytes: Vec<u8> = vec![0; v.len()];
                Data::Raw(bytes)
            },
        };
        let t = Tensor { digit: self.digit, shape: self.shape(), data };
        assert(t@ =~= self@.cleared());
        t
    }

    /// Returns the digit layout of the elements.
    pub fn digit(&self) -> (digit: DigitLayout)
        ensures
            digit == self.digit_spec(),
    {
        self.digit
    }

    /// Returns the extents, outermost first.
    pub fn shape(&self) -> (shape: Vec<usize>)
        ensures
            shape@ == self.dims(),
    {
        let mut shape: Vec<usize> = Vec::new();
        while shape.len() < self.shape.len()
            invariant
                shape.len() <= self.shape.len(),
                forall|i: int| 0 <= i < shape.len() ==> #[trigger] shape@[i] == self.shape@[i],
            decreases self.shape.len() - shape.len(),
        {
            shape.push(self.shape[shape.len()]);
        }
        assert(shape@ =~= self.dims());
        shape
    }

    /// Returns the number of extents.
    pub fn rank(&self) -> (n: usize)
        ensures
            n == self.dims().len(),
    {
        self.shape.len()
    }

    /// Returns one extent.
    pub fn dim(&self, axis: usize) -> (d: usize)
        requires
            axis < self.dims().len(),
        ensures
            d == self.dims()[axis as int],
    {
        self.shape[axis]
    }

    /// Counts the numbers.
    pub fn real_len(&self) -> (n: usize)
        requires
            self.is_real(),
        ensures
            n == self.cells().len(),
    {
        match &self.data {
            Data::Real(v) => v.len(),
            _ => 0,
        }
    }

    /// Copies the numbers out, in row-major order.
    pub fn reals(&self) -> (cells: Vec<E>)
        requires
            self.is_real(),
        ensures
            cells@ == self.cells(),
    {
        match &self.data {
            Data::Real(v) => {
                let cells = segment(v, 0, v.len());
                assert(cells@ =~= v@);
                cells
            },
            _ => Vec::new(),
        }
    }

    /// Copies `len` numbers, starting at `at`.
    pub fn segment(&self, at: usize, len: usize) -> (r: Vec<E>)
        requires
            self.is_real(),
            at + len <= self.cells().len(),
        ensures
            r@ == self.cells().subrange(at as int, at + len),
    {
        match &self.data {
            Data::Real(v) => segment(v, at, len),
            _ => Vec::new(),
        }
    }

    /// Copies one number.
    pub fn cell(&self, at: usize) -> (r: E)
        requires
            self.is_real(),
            at < self.cells().len(),
        ensures
            r == self.cells()[at as int],
    {
        match &self.data {
            Data::Real(v) => v[at].copy(),
            _ => E::zero(),
        }
    }

    /// Returns one integer.
    pub fn token(&self, at: usize) -> (r: u16)
        requires
            self.is_index(),
            at < self.tokens().len(),
        ensures
            r == self.tokens()[at as int],
    {
        match &self.data {
            Data::Index(v) => v[at],
            _ => 0,
        }
    }

    /// Counts the integers.
    pub fn token_len(&self) -> (n: usize)
        requires
            self.is_index(),
        ensures
            n == self.tokens().len(),
    {
        match &self.data {
            Data::Index(v) => v.len(),
            _ => 0,
        }
    }

    /// Counts the bytes of elements that are neither numbers nor integers.
    pub fn raw_len(&self) -> (n: usize)
        requires
            self@.elements is Raw,
        ensures
            n == (self@.elements->Raw_0).len(),
    {
        match &self.data {
            Data::Raw(v) => v.len(),
            _ => 0,
        }
    }

    /// Copies the integers out, in row-major order.
    pub fn indices(&self) -> (tokens: Vec<u16>)
        requires
            self.is_index(),
        ensures
            tokens@ == self.tokens(),
    {
        let n = self.token_len();
        let mut tokens: Vec<u16> = Vec::new();
        while tokens.len() < n
            invariant
                tokens.len() <= n,
                self.is_index(),
                n == self.tokens().len(),
                forall|i: int| 0 <= i < tokens.len() ==> #[trigger] tokens@[i] == self.tokens()[i],
            decreases n - tokens.len(),
        {
            tokens.push(self.token(tokens.len()));
        }
        assert(tokens@ =~= self.tokens());
        tokens
    }

    /// Whether `after` differs from `self` in its numbers at most.
    pub open spec fn same_form(&self, after: &Self) -> bool {
        &&& after.wf() == self.wf()
        &&& after.dims() == self.dims()
        &&& after.digit_spec() == self.digit_spec()
        &&& after.is_real() == self.is_real()
        &&& after.is_index() == self.is_index()
    }

    /// Replaces the numbers from `at` on.
    pub fn overwrite(&mut self, at: usize, values: &Vec<E>)
        requires
            old(self).is_real(),
            at + values@.len() <= old(self).cells().len(),
        ensures
            old(self).same_form(final(self)),
            final(self).cells() == overwritten(old(self).cells(), at as int, values@),
    {
        match &mut self.data {
            Data::Real(v) => overwrite(v, at, values),
            _ => {},
        }
    }

    /// Adds to the numbers from `at` on.
    pub fn accumulate(&mut self, at: usize, values: &Vec<E>)
        requires
            old(self).is_real(),
            at + values@.len() <= old(self).cells().len(),
        ensures
            old(self).same_form(final(self)),
            final(self).cells() == accumulated(old(self).cells(), at as int, values@),
    {
        match &mut self.data {
            Data::Real(v) => accumulate(v, at, values),
            _ => {},
        }
    }

    /// Replaces one number.
    pub fn set(&mut self, at: usize, value: E)
        requires
            old(self).is_real(),
            at < old(self).cells().len(),
        ensures
            old(self).same_form(final(self)),
            final(self).cells() == old(self).cells().update(at as int, value),
    {
        match &mut self.data {
            Data::Real(v) => v.set(at, value),
            _ => {},
        }
    }

    /// Replaces all the numbers.
    pub fn assign(&mut self, cells: Vec<E>)
        requires
            old(self).is_real(),
            cells@.len() == old(self).cells().len(),
        ensures
            old(self).same_form(final(self)),
            final(self).cells() == cells@,
    {
        self.data = Data::Real(cells);
    }
}

/// A tensor without extents has one element, and one extent more multiplies their
/// number.
pub proof fn law_size(shape: Seq<usize>, extent: usize)
    ensures
        size(Seq::empty()) == 1,
        size(shape.push(extent)) == size(shape) * extent,
{
    assert(shape.push(extent).drop_last() =~= shape);
}

/// Clearing a tensor of numbers or integers keeps its form and makes every element
/// zero.
pub proof fn law_cleared<E: Scalar>(content: Content<E>, i: int)
    requires
        content.wf(),
        0 <= i < size(content.dims),
    ensures
        content.cleared().wf(),
        content.cleared().digit == content.digit,
        content.cleared().dims == content.dims,
        content.is_real() ==> content.cleared().is_real() && content.cleared().cells()[i]
            == E::zero_spec(),
        content.is_index() ==> content.cleared().is_index() && content.cleared().tokens()[i] == 0,
{
}

/// A new tensor has the digit layout and the shape that it is asked for, and every
/// element is zero.
pub proof fn law_zeroed<E: Scalar>(digit: DigitLayout, dims: Seq<usize>, i: int)
    requires
        0 <= i < size(dims),
    ensures
        Content::<E>::zeroed(digit, dims).wf(),
        Content::<E>::zeroed(digit, dims).digit == digit,
        Content::<E>::zeroed(digit, dims).dims == dims,
        digit == f32_digit() ==> Content::<E>::zeroed(digit, dims).is_real()
            && Content::<E>::zeroed(digit, dims).cells()[i] == E::zero_spec(),
        digit == u16_digit() && digit != f32_digit() ==> Content::<E>::zeroed(
            digit,
            dims,
        ).is_index() && Content::<E>::zeroed(digit, dims).tokens()[i] == 0,
        digit != f32_digit() && digit != u16_digit() ==> {
            let bytes = Content::<E>::zeroed(digit, dims).elements;
            &&& bytes is Raw
            &&& (bytes->Raw_0).len() == digit_bytes(digit) * size(dims)
            &&& forall|k: int|
                0 <= k < digit_bytes(digit) * size(dims) ==> #[trigger] (bytes->Raw_0)[k] == 0
        },
{
}

} // verus!
