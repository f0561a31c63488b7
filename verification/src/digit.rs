//! The digit layouts of the `digit-layout` crate: what one element of a tensor is.
use digit_layout::DigitLayout;
use vstd::prelude::*;

verus! {

/// `DigitLayout` of the `digit-layout` crate, taken as an opaque value.
#[verifier::external_type_specification]
#[verifier::external_body]
pub struct ExDigitLayout(DigitLayout);

/// What `DigitLayout::real` returns.
pub uninterp spec fn real_digit(exponent: u16, mantissa: u16, group: u16) -> DigitLayout;

/// What `DigitLayout::unsigned` returns.
pub uninterp spec fn unsigned_digit(width: u16, group: u16) -> DigitLayout;

/// What `DigitLayout::nbytes` returns.
pub uninterp spec fn digit_bytes(digit: DigitLayout) -> usize;

/// The widths, in bits, that a number can have here.
pub open spec fn digit_width(width: int) -> bool {
    width == 8 || width == 16 || width == 32 || width == 64 || width == 128
}

/// `DigitLayout::real`: the layout of `group` numbers with one sign bit,
/// `exponent` bits of exponent and `mantissa` bits of mantissa each.  It is a
/// function of these three numbers, and its elements take as many bytes as these
/// bits fill.  The widths left out by `requires` are
/// those on which the function panics or of which nothing is claimed.
pub assume_specification[ DigitLayout::real ](
    exponent: u16,
    mantissa: u16,
    group: u16,
) -> (digit: DigitLayout)
    requires
        digit_width(1 + exponent + mantissa),
        (1 + exponent + mantissa) / 8 * group <= u16::MAX,
    ensures
        digit == real_digit(exponent, mantissa, group),
        digit_bytes(digit) == (1 + exponent + mantissa) / 8 * group,
;

/// `DigitLayout::unsigned`: the layout of `group` unsigned integers of `width`
/// bits each.  It is a function of these two numbers, and its elements take as
/// many bytes as these bits fill.  The widths left out by `requires` are those on
/// which the function panics or of which nothing is claimed.
pub assume_specification[ DigitLayout::unsigned ](width: u16, group: u16) -> (digit: DigitLayout)
    requires
        digit_width(width as int),
        width as int / 8 * group <= u16::MAX,
    ensures
        digit == unsigned_digit(width, group),
        digit_bytes(digit) == width as int / 8 * group,
;

/// `DigitLayout::nbytes`: the number of bytes of one element.  It is a function
/// of the layout, and is kept there as a 16-bit number.
pub assume_specification[ DigitLayout::nbytes ](digit: DigitLayout) -> (bytes: usize)
    ensures
        bytes == digit_bytes(digit),
        bytes <= u16::MAX,
;

/// `==` of two `DigitLayout`s: it compares all that a layout holds.
#[verifier::external_body]
pub(crate) fn same_digit(a: DigitLayout, b: DigitLayout) -> (same: bool)
    ensures
        same == (a == b),
{
    a == b
}

/// The layout of a single precision number.
pub open spec fn f32_digit() -> DigitLayout {
    real_digit(8, 23, 1)
}

/// The layout of a 16-bit unsigned integer.
pub open spec fn u16_digit() -> DigitLayout {
    unsigned_digit(16, 1)
}

/// Returns the layout of a single precision number.
pub fn real32() -> (digit: DigitLayout)
    ensures
        digit == f32_digit(),
        digit_bytes(digit) == 4,
{
    DigitLayout::real(8, 23, 1)
}

/// Returns the layout of a 16-bit unsigned integer.
pub fn unsigned16() -> (digit: DigitLayout)
    ensures
        digit == u16_digit(),
        digit_bytes(digit) == 2,
{
    DigitLayout::unsigned(16, 1)
}

/// A single precision number has eight bits of exponent and twenty-three of
/// mantissa, and an index has sixteen bits.  Both come one at a time.
pub proof fn law_layouts()
    ensures
        f32_digit() == real_digit(8, 23, 1),
        u16_digit() == unsigned_digit(16, 1),
{
}

} // verus!
