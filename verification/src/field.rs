//! Fields of characteristic two.
use vstd::prelude::*;

verus! {

/// A field of characteristic two, with its laws.
///
/// The spec functions give the mathematical operations, the executable ones
/// compute them, and the proof functions are the laws that every
/// implementation establishes.
pub trait BinaryField: Sized + Copy {
    /// The neutral element of addition.
    spec fn zero() -> Self;

    /// The neutral element of multiplication.
    spec fn one() -> Self;

    /// The sum, which is also the difference.
    spec fn add(self, rhs: Self) -> Self;

    /// The product.
    spec fn mul(self, rhs: Self) -> Self;

    /// The multiplicative inverse; only meaningful off zero.
    spec fn inv(self) -> Self;

    /// Computes [`BinaryField::zero`].
    fn zero_value() -> (r: Self)
        ensures
            r == Self::zero(),
    ;

    /// Computes [`BinaryField::one`].
    fn one_value() -> (r: Self)
        ensures
            r == Self::one(),
    ;

    /// Computes the sum.
    fn plus(self, rhs: Self) -> (r: Self)
        ensures
            r == self.add(rhs),
    ;

    /// Computes the product.
    fn times(self, rhs: Self) -> (r: Self)
        ensures
            r == self.mul(rhs),
    ;

    /// Computes the inverse of a non-zero element.
    fn invert(self) -> (r: Self)
        requires
            self != Self::zero(),
        ensures
            r == self.inv(),
    ;

    /// Decides equality.
    fn equals(self, rhs: Self) -> (r: bool)
        ensures
            r == (self == rhs),
    ;

    /// Addition commutes.
    proof fn add_comm(a: Self, b: Self)
        ensures
            a.add(b) == b.add(a),
    ;

    /// Addition associates.
    proof fn add_assoc(a: Self, b: Self, c: Self)
        ensures
            a.add(b).add(c) == a.add(b.add(c)),
    ;

    /// Zero is neutral for addition.
    proof fn add_zero(a: Self)
        ensures
            a.add(Self::zero()) == a,
    ;

    /// Every element is its own negative.
    proof fn add_self(a: Self)
        ensures
            a.add(a) == Self::zero(),
    ;

    /// Multiplication commutes.
    proof fn mul_comm(a: Self, b: Self)
        ensures
            a.mul(b) == b.mul(a),
    ;

    /// Multiplication associates.
    proof fn mul_assoc(a: Self, b: Self, c: Self)
        ensures
            a.mul(b).mul(c) == a.mul(b.mul(c)),
    ;

    /// One is neutral for multiplication.
    proof fn mul_one(a: Self)
        ensures
            a.mul(Self::one()) == a,
    ;

    /// Multiplication distributes over addition.
    proof fn mul_add(a: Self, b: Self, c: Self)
        ensures
            a.mul(b.add(c)) == a.mul(b).add(a.mul(c)),
    ;

    /// Zero and one differ.
    proof fn one_not_zero()
        ensures
            Self::one() != Self::zero(),
    ;

    /// A non-zero element times its inverse is one.
    proof fn mul_inv(a: Self)
        requires
            a != Self::zero(),
        ensures
            a.mul(a.inv()) == Self::one(),
    ;
}

/// A field of characteristic two whose elements are the 128-bit words, added
/// bit by bit.
pub trait TowerField: BinaryField {
    /// The element with the given bit pattern.
    spec fn of_u128(bits: u128) -> Self;

    /// The bit pattern of an element.
    spec fn bits(self) -> u128;

    /// Computes [`TowerField::of_u128`].
    fn from_u128(bits: u128) -> (r: Self)
        ensures
            r == Self::of_u128(bits),
    ;

    /// Computes [`TowerField::bits`].
    fn to_u128(self) -> (r: u128)
        ensures
            r == self.bits(),
    ;

    /// Overwrites an element with zero.
    fn wipe(&mut self)
        ensures
            *final(self) == Self::zero(),
    ;

    /// Bit patterns and elements correspond one to one.
    proof fn bits_of_u128(bits: u128)
        ensures
            Self::of_u128(bits).bits() == bits,
    ;

    /// Bit patterns and elements correspond one to one.
    proof fn of_u128_bits(a: Self)
        ensures
            Self::of_u128(a.bits()) == a,
    ;

    /// Addition is exclusive-or of the bit patterns.
    proof fn of_u128_xor(a: u128, b: u128)
        ensures
            Self::of_u128(a ^ b) == Self::of_u128(a).add(Self::of_u128(b)),
    ;

    /// The patterns 0 and 1 are the two neutral elements.
    proof fn of_u128_units()
        ensures
            Self::of_u128(0) == Self::zero(),
            Self::of_u128(1) == Self::one(),
    ;
}

/// `a + (a + b) == b`.
pub proof fn lemma_add_cancel<F: BinaryField>(a: F, b: F)
    ensures
        a.add(a.add(b)) == b,
        a.add(b).add(b) == a,
        a.add(b).add(a) == b,
{
    F::add_assoc(a, a, b);
    F::add_self(a);
    F::add_comm(F::zero(), b);
    F::add_zero(b);
    F::add_assoc(a, b, b);
    F::add_self(b);
    F::add_zero(a);
    F::add_comm(a.add(b), a);
}

/// `0 + a == a`, `0 * a == 0` and `1 * a == a`, on both sides.
pub proof fn lemma_units<F: BinaryField>(a: F)
    ensures
        F::zero().add(a) == a,
        a.add(F::zero()) == a,
        F::zero().mul(a) == F::zero(),
        a.mul(F::zero()) == F::zero(),
        F::one().mul(a) == a,
        a.mul(F::one()) == a,
{
    F::add_comm(F::zero(), a);
    F::add_zero(a);
    F::mul_comm(F::one(), a);
    F::mul_one(a);
    F::mul_comm(F::zero(), a);
    let z = a.mul(F::zero());
    F::mul_add(a, F::zero(), F::zero());
    F::add_zero(F::zero());
    assert(z == z.add(z));
    F::add_self(z);
}

/// `(a + b) + (c + d) == (a + c) + (b + d)`.
pub proof fn lemma_add_swap<F: BinaryField>(a: F, b: F, c: F, d: F)
    ensures
        a.add(b).add(c.add(d)) == a.add(c).add(b.add(d)),
{
    F::add_assoc(a, b, c.add(d));
    F::add_assoc(b, c, d);
    F::add_comm(b, c);
    F::add_assoc(c, b, d);
    F::add_assoc(a, c, b.add(d));
}

/// `(b + c) * a == b * a + c * a`.
pub proof fn lemma_add_mul<F: BinaryField>(b: F, c: F, a: F)
    ensures
        b.add(c).mul(a) == b.mul(a).add(c.mul(a)),
{
    F::mul_comm(b.add(c), a);
    F::mul_add(a, b, c);
    F::mul_comm(a, b);
    F::mul_comm(a, c);
}

/// Equal summands cancel: `a + b == 0` exactly when `a == b`.
pub proof fn lemma_add_eq_zero<F: BinaryField>(a: F, b: F)
    ensures
        a.add(b) == F::zero() <==> a == b,
{
    F::add_self(a);
    if a.add(b) == F::zero() {
        lemma_add_cancel(a, b);
        F::add_zero(a);
    }
}

/// A product is zero exactly when a factor is.
pub proof fn lemma_mul_eq_zero<F: BinaryField>(a: F, b: F)
    ensures
        a.mul(b) == F::zero() <==> (a == F::zero() || b == F::zero()),
{
    lemma_units(a);
    lemma_units(b);
    if a.mul(b) == F::zero() && a != F::zero() {
        F::mul_inv(a);
        F::mul_comm(a, a.inv());
        F::mul_assoc(a.inv(), a, b);
        lemma_units(a.inv());
    }
}

/// Squaring is additive: `(a + b)^2 == a^2 + b^2`.
pub proof fn lemma_square_add<F: BinaryField>(a: F, b: F)
    ensures
        a.add(b).mul(a.add(b)) == a.mul(a).add(b.mul(b)),
{
    let s = a.add(b);
    F::mul_add(s, a, b);
    lemma_add_mul(a, b, a);
    lemma_add_mul(a, b, b);
    F::mul_comm(b, a);
    let aa = a.mul(a);
    let ab = a.mul(b);
    let bb = b.mul(b);
    assert(s.mul(s) == aa.add(ab).add(ab.add(bb)));
    F::add_assoc(aa, ab, ab.add(bb));
    lemma_add_cancel(ab, bb);
}

/// `(a * b) * (c * d) == (a * c) * (b * d)`.
pub proof fn lemma_mul_swap<F: BinaryField>(a: F, b: F, c: F, d: F)
    ensures
        a.mul(b).mul(c.mul(d)) == a.mul(c).mul(b.mul(d)),
{
    F::mul_assoc(a, b, c.mul(d));
    F::mul_assoc(b, c, d);
    F::mul_comm(b, c);
    F::mul_assoc(c, b, d);
    F::mul_assoc(a, c, b.mul(d));
}

} // verus!
