//! Points whose coordinates are single-precision floats, held as their
//! IEEE-754 bit patterns so that the logic above them can be verified
//! without floating-point arithmetic.

use vstd::prelude::*;

use std::cmp::Ordering;

verus! {

/// A point in the plane; `x` and `y` are the bit patterns of `f32` values
/// (`f32::to_bits`), so every float, NaN and signed zero included, has
/// exactly one representation here.
#[derive(Debug, Clone, Copy, Default)]
pub struct Point {
    pub x: u32,
    pub y: u32,
}

/// The bit pattern is a NaN: all exponent bits set, mantissa not zero.
pub open spec fn is_nan_bits(b: u32) -> bool {
    (b & 0x7f80_0000u32) == 0x7f80_0000u32 && (b & 0x007f_ffffu32) != 0u32
}

/// The bit pattern is `+0.0` or `-0.0`.
pub open spec fn is_zero_bits(b: u32) -> bool {
    (b & 0x7fff_ffffu32) == 0u32
}

/// IEEE-754 equality of two `f32` values given by their bits: NaN equals
/// nothing, the two zeros are equal, and otherwise equal values have equal
/// bits.
pub open spec fn f32_bits_eq(a: u32, b: u32) -> bool {
    !is_nan_bits(a) && !is_nan_bits(b) && (a == b || (is_zero_bits(a) && is_zero_bits(b)))
}

/// Two points compare equal as `f32` pairs do.
pub open spec fn point_eq(a: Point, b: Point) -> bool {
    f32_bits_eq(a.x, b.x) && f32_bits_eq(a.y, b.y)
}

/// Two points are the same place: identical bits, or equal as floats.
pub open spec fn same_place(a: Point, b: Point) -> bool {
    a == b || point_eq(a, b)
}

/// Compares two `f32` values, given by their bit patterns, with `==`.
pub fn f32_eq(a: u32, b: u32) -> (r: bool)
    ensures
        r == f32_bits_eq(a, b),
{
    let a_nan = (a & 0x7f80_0000u32) == 0x7f80_0000u32 && (a & 0x007f_ffffu32) != 0u32;
    let b_nan = (b & 0x7f80_0000u32) == 0x7f80_0000u32 && (b & 0x007f_ffffu32) != 0u32;
    let a_zero = (a & 0x7fff_ffffu32) == 0u32;
    let b_zero = (b & 0x7fff_ffffu32) == 0u32;
    !a_nan && !b_nan && (a == b || (a_zero && b_zero))
}

impl PartialEq for Point {
    fn eq(&self, other: &Self) -> (r: bool) {
        f32_eq(self.x, other.x) && f32_eq(self.y, other.y)
    }
}

impl vstd::std_specs::cmp::PartialEqSpecImpl for Point {
    open spec fn obeys_eq_spec() -> bool {
        true
    }

    open spec fn eq_spec(&self, other: &Self) -> bool {
        point_eq(*self, *other)
    }
}

/// Float equality of points is symmetric.
pub proof fn lemma_point_eq_symmetric(a: Point, b: Point)
    ensures
        point_eq(a, b) == point_eq(b, a),
        same_place(a, b) == same_place(b, a),
{
}

/// A point without NaN coordinates equals itself.
pub proof fn lemma_point_eq_reflexive(a: Point)
    requires
        !is_nan_bits(a.x),
        !is_nan_bits(a.y),
    ensures
        point_eq(a, a),
{
}

/// A NaN equals nothing, itself included.
pub proof fn lemma_nan_never_equal(a: u32, b: u32)
    requires
        is_nan_bits(a) || is_nan_bits(b),
    ensures
        !f32_bits_eq(a, b),
{
}

/// The NaN bit patterns: all exponent bits set and a mantissa that is not
/// zero; for instance the quiet NaN `0x7fc0_0000`, but not infinity.
pub proof fn lemma_nan_bits_examples()
    ensures
        is_nan_bits(0x7fc0_0000u32),
        is_nan_bits(0xffc0_0000u32),
        !is_nan_bits(0x7f80_0000u32),
        !is_nan_bits(0x3f80_0000u32),
        is_zero_bits(0x8000_0000u32),
        !is_zero_bits(0x3f80_0000u32),
{
    assert((0x7fc0_0000u32 & 0x7f80_0000u32) == 0x7f80_0000u32 && (0x7fc0_0000u32 & 0x007f_ffffu32)
        != 0u32) by (bit_vector);
    assert((0xffc0_0000u32 & 0x7f80_0000u32) == 0x7f80_0000u32 && (0xffc0_0000u32 & 0x007f_ffffu32)
        != 0u32) by (bit_vector);
    assert((0x7f80_0000u32 & 0x007f_ffffu32) == 0u32) by (bit_vector);
    assert((0x3f80_0000u32 & 0x7f80_0000u32) != 0x7f80_0000u32) by (bit_vector);
    assert((0x8000_0000u32 & 0x7fff_ffffu32) == 0u32) by (bit_vector);
    assert((0x3f80_0000u32 & 0x7fff_ffffu32) != 0u32) by (bit_vector);
}

/// `+0.0` and `-0.0` compare equal though their bits differ.
pub proof fn lemma_signed_zeros_equal()
    ensures
        f32_bits_eq(0u32, 0x8000_0000u32),
{
    assert((0u32 & 0x7fff_ffffu32) == 0u32 && (0x8000_0000u32 & 0x7fff_ffffu32) == 0u32
        && (0u32 & 0x7f80_0000u32) != 0x7f80_0000u32 && (0x8000_0000u32 & 0x7f80_0000u32)
        != 0x7f80_0000u32) by (bit_vector);
}

/// The bit pattern has its sign bit set.
pub open spec fn is_negative_bits(b: u32) -> bool {
    b >= 0x8000_0000u32
}

/// IEEE-754 comparison of two `f32` values given by their bits: `None`
/// where either is NaN, the two zeros equal, negatives below positives, and
/// otherwise the order of the magnitudes (reversed below zero).
pub open spec fn f32_bits_partial_cmp(a: u32, b: u32) -> Option<Ordering> {
    if is_nan_bits(a) || is_nan_bits(b) {
        None
    } else if is_zero_bits(a) && is_zero_bits(b) {
        Some(Ordering::Equal)
    } else if is_negative_bits(a) && !is_negative_bits(b) {
        Some(Ordering::Less)
    } else if !is_negative_bits(a) && is_negative_bits(b) {
        Some(Ordering::Greater)
    } else if a == b {
        Some(Ordering::Equal)
    } else if (a < b) != is_negative_bits(a) {
        Some(Ordering::Less)
    } else {
        Some(Ordering::Greater)
    }
}

/// Points compare as `(x, y)` pairs of floats: by `x`, then by `y` where
/// the `x` values are equal.
pub open spec fn point_partial_cmp(a: Point, b: Point) -> Option<Ordering> {
    match f32_bits_partial_cmp(a.x, b.x) {
        Some(Ordering::Equal) => f32_bits_partial_cmp(a.y, b.y),
        other => other,
    }
}

/// Compares two `f32` values, given by their bit patterns, as
/// `f32::partial_cmp` does.
pub fn f32_partial_cmp(a: u32, b: u32) -> (r: Option<Ordering>)
    ensures
        r == f32_bits_partial_cmp(a, b),
{
    let a_nan = (a & 0x7f80_0000u32) == 0x7f80_0000u32 && (a & 0x007f_ffffu32) != 0u32;
    let b_nan = (b & 0x7f80_0000u32) == 0x7f80_0000u32 && (b & 0x007f_ffffu32) != 0u32;
    let a_zero = (a & 0x7fff_ffffu32) == 0u32;
    let b_zero = (b & 0x7fff_ffffu32) == 0u32;
    let a_neg = a >= 0x8000_0000u32;
    let b_neg = b >= 0x8000_0000u32;
    if a_nan || b_nan {
        None
    } else if a_zero && b_zero {
        Some(Ordering::Equal)
    } else if a_neg && !b_neg {
        Some(Ordering::Less)
    } else if !a_neg && b_neg {
        Some(Ordering::Greater)
    } else if a == b {
        Some(Ordering::Equal)
    } else if (a < b) != a_neg {
        Some(Ordering::Less)
    } else {
        Some(Ordering::Greater)
    }
}

impl PartialOrd for Point {
    fn partial_cmp(&self, other: &Self) -> (r: Option<Ordering>) {
        match f32_partial_cmp(self.x, other.x) {
            Some(Ordering::Equal) => f32_partial_cmp(self.y, other.y),
            other_order => other_order,
        }
    }
}

impl vstd::std_specs::cmp::PartialOrdSpecImpl for Point {
    open spec fn obeys_partial_cmp_spec() -> bool {
        true
    }

    open spec fn partial_cmp_spec(&self, other: &Self) -> Option<Ordering> {
        point_partial_cmp(*self, *other)
    }
}

/// Float comparison of points agrees with their float equality: they
/// compare `Equal` exactly when they are equal.
pub proof fn lemma_partial_cmp_matches_eq(a: Point, b: Point)
    ensures
        (point_partial_cmp(a, b) == Some(Ordering::Equal)) == point_eq(a, b),
{
}

/// Swapping the points reverses their order.
pub proof fn lemma_partial_cmp_antisymmetric(a: Point, b: Point)
    ensures
        point_partial_cmp(a, b) == Some(Ordering::Less) <==> point_partial_cmp(b, a) == Some(
            Ordering::Greater,
        ),
{
}

} // verus!
