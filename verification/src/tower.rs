//! The binary tower: each level adjoins a root of `X^2 + g X + 1` to the level
//! below, where `g` is the generator of that level.
use vstd::prelude::*;
use crate::field::{BinaryField, TowerField, lemma_add_cancel, lemma_add_mul, lemma_add_swap, lemma_mul_eq_zero, lemma_mul_swap, lemma_square_add, lemma_units};

verus! {

/// The widths of the levels up to 128 bits.
pub open spec fn power_width(w: u128) -> bool {
    w == 1 || w == 2 || w == 4 || w == 8 || w == 16 || w == 32 || w == 64 || w == 128
}

/// The low `w` bits of two words are the same.
pub open spec fn same_low(u: u128, v: u128, w: u128) -> bool {
    (u ^ v) << ((128 - w) as u128) == 0
}

/// The places at which a word holds elements of a width side by side.
pub open spec fn aligned(s: u128, w: u128) -> bool {
    s < 128 && s & ((w - 1) as u128) == 0
}

/// The lower halves of all the pairs of blocks of `w` bits.
pub open spec fn lower_blocks(w: u128) -> u128 {
    if w == 1 {
        0x5555_5555_5555_5555_5555_5555_5555_5555
    } else if w == 2 {
        0x3333_3333_3333_3333_3333_3333_3333_3333
    } else if w == 4 {
        0x0F0F_0F0F_0F0F_0F0F_0F0F_0F0F_0F0F_0F0F
    } else if w == 8 {
        0x00FF_00FF_00FF_00FF_00FF_00FF_00FF_00FF
    } else if w == 16 {
        0x0000_FFFF_0000_FFFF_0000_FFFF_0000_FFFF
    } else if w == 32 {
        0x0000_0000_FFFF_FFFF_0000_0000_FFFF_FFFF
    } else {
        0x0000_0000_0000_0000_FFFF_FFFF_FFFF_FFFF
    }
}

/// Computes [`lower_blocks`].
fn lower_blocks_value(w: u128) -> (r: u128)
    ensures
        r == lower_blocks(w),
{
    if w == 1 {
        0x5555_5555_5555_5555_5555_5555_5555_5555
    } else if w == 2 {
        0x3333_3333_3333_3333_3333_3333_3333_3333
    } else if w == 4 {
        0x0F0F_0F0F_0F0F_0F0F_0F0F_0F0F_0F0F_0F0F
    } else if w == 8 {
        0x00FF_00FF_00FF_00FF_00FF_00FF_00FF_00FF
    } else if w == 16 {
        0x0000_FFFF_0000_FFFF_0000_FFFF_0000_FFFF
    } else if w == 32 {
        0x0000_0000_FFFF_FFFF_0000_0000_FFFF_FFFF
    } else {
        0x0000_0000_0000_0000_FFFF_FFFF_FFFF_FFFF
    }
}

/// What a word made of the lower blocks of one and the upper blocks of another
/// holds at the place `s` of a pair, and `w` bits on.
#[verifier::rlimit(100)]
proof fn lemma_blocks(lo: u128, hi: u128, x: u128, w: u128, s: u128)
    requires
        power_width(w),
        w <= 64,
        s < 128,
        s & ((2 * w - 1) as u128) == 0,
    ensures
        ({
            let m = lower_blocks(w);
            let r = (lo & m) | (hi & !m);
            let d = (128 - w) as u128;
            let t = (s + w) as u128;
            &&& t < 128
            &&& s & ((w - 1) as u128) == 0
            &&& t & ((w - 1) as u128) == 0
            &&& ((r >> s) ^ (lo >> s)) << d == 0
            &&& ((r >> t) ^ (hi >> t)) << d == 0
            &&& (((x << w) >> t) ^ (x >> s)) << d == 0
            &&& (x >> w) >> s == x >> t
            &&& (r >> s) >> w == r >> t
        }),
{
    let m = lower_blocks(w);
    let r = (lo & m) | (hi & !m);
    if w == 1 {
        assert(s < 127 && s & 0 == 0 && (s + 1) as u128 & 0 == 0 && ((r >> s) ^ (lo >> s)) << 127u128
            == 0 && ((r >> (s + 1) as u128) ^ (hi >> (s + 1) as u128)) << 127u128 == 0 && (((x
            << 1u128) >> (s + 1) as u128) ^ (x >> s)) << 127u128 == 0 && (x >> 1u128) >> s == x >> (s
            + 1) as u128 && (r >> s) >> 1u128 == r >> (s + 1) as u128) by (bit_vector)
            requires
                s < 128,
                s & 1 == 0,
                m == 0x5555_5555_5555_5555_5555_5555_5555_5555u128,
                r == (lo & m) | (hi & !m),
        ;
    } else if w == 2 {
        assert(s < 126 && s & 1 == 0 && (s + 2) as u128 & 1 == 0 && ((r >> s) ^ (lo >> s)) << 126u128
            == 0 && ((r >> (s + 2) as u128) ^ (hi >> (s + 2) as u128)) << 126u128 == 0 && (((x
            << 2u128) >> (s + 2) as u128) ^ (x >> s)) << 126u128 == 0 && (x >> 2u128) >> s == x >> (s
            + 2) as u128 && (r >> s) >> 2u128 == r >> (s + 2) as u128) by (bit_vector)
            requires
                s < 128,
                s & 3 == 0,
                m == 0x3333_3333_3333_3333_3333_3333_3333_3333u128,
                r == (lo & m) | (hi & !m),
        ;
    } else if w == 4 {
        assert(s < 124 && s & 3 == 0 && (s + 4) as u128 & 3 == 0 && ((r >> s) ^ (lo >> s)) << 124u128
            == 0 && ((r >> (s + 4) as u128) ^ (hi >> (s + 4) as u128)) << 124u128 == 0 && (((x
            << 4u128) >> (s + 4) as u128) ^ (x >> s)) << 124u128 == 0 && (x >> 4u128) >> s == x >> (s
            + 4) as u128 && (r >> s) >> 4u128 == r >> (s + 4) as u128) by (bit_vector)
            requires
                s < 128,
                s & 7 == 0,
                m == 0x0F0F_0F0F_0F0F_0F0F_0F0F_0F0F_0F0F_0F0Fu128,
                r == (lo & m) | (hi & !m),
        ;
    } else if w == 8 {
        assert(s < 120 && s & 7 == 0 && (s + 8) as u128 & 7 == 0 && ((r >> s) ^ (lo >> s)) << 120u128
            == 0 && ((r >> (s + 8) as u128) ^ (hi >> (s + 8) as u128)) << 120u128 == 0 && (((x
            << 8u128) >> (s + 8) as u128) ^ (x >> s)) << 120u128 == 0 && (x >> 8u128) >> s == x >> (s
            + 8) as u128 && (r >> s) >> 8u128 == r >> (s + 8) as u128) by (bit_vector)
            requires
                s < 128,
                s & 15 == 0,
                m == 0x00FF_00FF_00FF_00FF_00FF_00FF_00FF_00FFu128,
                r == (lo & m) | (hi & !m),
        ;
    } else if w == 16 {
        assert(s < 112 && s & 15 == 0 && (s + 16) as u128 & 15 == 0 && ((r >> s) ^ (lo >> s))
            << 112u128 == 0 && ((r >> (s + 16) as u128) ^ (hi >> (s + 16) as u128)) << 112u128 == 0
            && (((x << 16u128) >> (s + 16) as u128) ^ (x >> s)) << 112u128 == 0 && (x >> 16u128) >> s
            == x >> (s + 16) as u128 && (r >> s) >> 16u128 == r >> (s + 16) as u128) by (bit_vector)
            requires
                s < 128,
                s & 31 == 0,
                m == 0x0000_FFFF_0000_FFFF_0000_FFFF_0000_FFFFu128,
                r == (lo & m) | (hi & !m),
        ;
    } else if w == 32 {
        assert(s < 96 && s & 31 == 0 && (s + 32) as u128 & 31 == 0 && ((r >> s) ^ (lo >> s))
            << 96u128 == 0 && ((r >> (s + 32) as u128) ^ (hi >> (s + 32) as u128)) << 96u128 == 0
            && (((x << 32u128) >> (s + 32) as u128) ^ (x >> s)) << 96u128 == 0 && (x >> 32u128) >> s
            == x >> (s + 32) as u128 && (r >> s) >> 32u128 == r >> (s + 32) as u128) by (bit_vector)
            requires
                s < 128,
                s & 63 == 0,
                m == 0x0000_0000_FFFF_FFFF_0000_0000_FFFF_FFFFu128,
                r == (lo & m) | (hi & !m),
        ;
    } else {
        assert(s < 64 && s & 63 == 0 && (s + 64) as u128 & 63 == 0 && ((r >> s) ^ (lo >> s))
            << 64u128 == 0 && ((r >> (s + 64) as u128) ^ (hi >> (s + 64) as u128)) << 64u128 == 0
            && (((x << 64u128) >> (s + 64) as u128) ^ (x >> s)) << 64u128 == 0 && (x >> 64u128) >> s
            == x >> (s + 64) as u128 && (r >> s) >> 64u128 == r >> (s + 64) as u128) by (bit_vector)
            requires
                s < 128,
                s & 127 == 0,
                m == 0x0000_0000_0000_0000_FFFF_FFFF_FFFF_FFFFu128,
                r == (lo & m) | (hi & !m),
        ;
    }
}

/// Shifting passes through an exclusive-or.
#[verifier::rlimit(100)]
proof fn lemma_shift_xor(x: u128, y: u128, s: u128)
    by (bit_vector)
    requires
        s < 128,
    ensures
        (x ^ y) >> s == (x >> s) ^ (y >> s),
{
}

/// Words with the same low bits have the same halves.
proof fn lemma_same_halves(u: u128, v: u128, w: u128, double: u128, up: u128)
    by (bit_vector)
    requires
        1 <= w <= 64,
        double == 128 - (w + w),
        up == 128 - w,
        (u ^ v) << double == 0,
    ensures
        u & !(!0u128 << w) == v & !(!0u128 << w),
        ((u >> w) ^ (v >> w)) << up == 0,
{
}

/// A part of a word that is masked has its low bits from the word.
proof fn lemma_same_masked(u: u128, w: u128, up: u128)
    by (bit_vector)
    requires
        1 <= w <= 64,
        up == 128 - w,
    ensures
        ((u & !(!0u128 << w)) ^ u) << up == 0,
{
}

/// One level of the tower, with what the next level needs of it.
pub trait TowerLevel: BinaryField {
    /// The coefficient of the quadratic that defines the next level.
    spec fn generator() -> Self;

    /// The number of bits of an element.
    spec fn width() -> u128;

    /// The element with the given bits, the low ones first.
    spec fn of_bits(bits: u128) -> Self;

    /// The bits of an element.
    spec fn to_bits(self) -> u128;

    /// Computes the product with the generator.
    fn times_generator(self) -> (r: Self)
        ensures
            r == self.mul(Self::generator()),
    ;

    /// Computes [`TowerLevel::width`].
    fn width_value() -> (r: u128)
        ensures
            r == Self::width(),
    ;

    /// Computes [`TowerLevel::of_bits`].
    fn from_bits(bits: u128) -> (r: Self)
        requires
            Self::width() <= 128,
        ensures
            r == Self::of_bits(bits),
    ;

    /// Computes [`TowerLevel::to_bits`].
    fn into_bits(self) -> (r: u128)
        requires
            Self::width() <= 128,
        ensures
            r == self.to_bits(),
    ;

    /// The products of the elements that two words hold side by side.
    fn packed_product(a: u128, b: u128) -> (r: u128)
        requires
            Self::width() <= 128,
        ensures
            forall|s: u128|
                aligned(s, Self::width()) ==> #[trigger] Self::of_bits(r >> s) == Self::of_bits(
                    a >> s,
                ).mul(Self::of_bits(b >> s)),
    ;

    /// The products with the generator of the elements that a word holds side by
    /// side.
    fn packed_times_generator(a: u128) -> (r: u128)
        requires
            Self::width() <= 128,
        ensures
            forall|s: u128|
                aligned(s, Self::width()) ==> #[trigger] Self::of_bits(r >> s) == Self::of_bits(
                    a >> s,
                ).mul(Self::generator()),
    ;

    /// An element has its bits from the low bits of a word.
    proof fn low_bits(u: u128, v: u128)
        requires
            Self::width() <= 128,
            same_low(u, v, Self::width()),
        ensures
            Self::of_bits(u) == Self::of_bits(v),
    ;

    /// The generator is not of the form `s^2 + s`.
    proof fn generator_has_no_half(s: Self)
        ensures
            s.mul(s).add(s) != Self::generator(),
    ;

    /// The quadratic of the next level has no root in this level.
    proof fn quadratic_has_no_root(y: Self)
        ensures
            y.mul(y).add(Self::generator().mul(y)).add(Self::one()) != Self::zero(),
    ;

    /// A width of at most 128 is a power of two.
    proof fn width_is_power()
        ensures
            Self::width() <= 128 ==> power_width(Self::width()),
    ;

    /// The bits of an element fit the width.
    proof fn bits_fit(a: Self)
        requires
            Self::width() < 128,
        ensures
            a.to_bits() >> Self::width() == 0,
    ;

    /// Bit patterns that fit the width correspond to the elements.
    proof fn bits_round_trip(bits: u128)
        requires
            Self::width() <= 128,
            Self::width() < 128 ==> bits >> Self::width() == 0,
        ensures
            Self::of_bits(bits).to_bits() == bits,
    ;

    /// Elements are determined by their bits.
    proof fn elements_round_trip(a: Self)
        requires
            Self::width() <= 128,
        ensures
            Self::of_bits(a.to_bits()) == a,
    ;

    /// Exclusive-or of the bits is addition.
    proof fn bits_xor(a: u128, b: u128)
        requires
            Self::width() <= 128,
        ensures
            Self::of_bits(a ^ b) == Self::of_bits(a).add(Self::of_bits(b)),
    ;

    /// The patterns 0 and 1 are the neutral elements.
    proof fn bits_units()
        requires
            Self::width() <= 128,
        ensures
            Self::of_bits(0) == Self::zero(),
            Self::of_bits(1) == Self::one(),
    ;
}

/// The field with two elements.
#[derive(Clone, Copy, Debug, PartialEq, Eq, Structural)]
pub struct Bit(pub bool);

impl BinaryField for Bit {
    open spec fn zero() -> Self {
        Bit(false)
    }

    open spec fn one() -> Self {
        Bit(true)
    }

    open spec fn add(self, rhs: Self) -> Self {
        Bit(self.0 != rhs.0)
    }

    open spec fn mul(self, rhs: Self) -> Self {
        Bit(self.0 && rhs.0)
    }

    open spec fn inv(self) -> Self {
        self
    }

    fn zero_value() -> (r: Self) {
        Bit(false)
    }

    fn one_value() -> (r: Self) {
        Bit(true)
    }

    fn plus(self, rhs: Self) -> (r: Self) {
        Bit(self.0 != rhs.0)
    }

    fn times(self, rhs: Self) -> (r: Self) {
        Bit(self.0 && rhs.0)
    }

    fn invert(self) -> (r: Self) {
        self
    }

    fn equals(self, rhs: Self) -> (r: bool) {
        self.0 == rhs.0
    }

    proof fn add_comm(a: Self, b: Self) {
    }

    proof fn add_assoc(a: Self, b: Self, c: Self) {
    }

    proof fn add_zero(a: Self) {
    }

    proof fn add_self(a: Self) {
    }

    proof fn mul_comm(a: Self, b: Self) {
    }

    proof fn mul_assoc(a: Self, b: Self, c: Self) {
    }

    proof fn mul_one(a: Self) {
    }

    proof fn mul_add(a: Self, b: Self, c: Self) {
    }

    proof fn one_not_zero() {
    }

    proof fn mul_inv(a: Self) {
    }
}

impl TowerLevel for Bit {
    open spec fn generator() -> Self {
        Bit(true)
    }

    open spec fn width() -> u128 {
        1
    }

    open spec fn of_bits(bits: u128) -> Self {
        Bit(bits & 1 == 1)
    }

    open spec fn to_bits(self) -> u128 {
        if self.0 {
            1
        } else {
            0
        }
    }

    fn times_generator(self) -> (r: Self) {
        self
    }

    fn width_value() -> (r: u128) {
        1
    }

    fn from_bits(bits: u128) -> (r: Self) {
        Bit(bits & 1 == 1)
    }

    fn into_bits(self) -> (r: u128) {
        if self.0 {
            1
        } else {
            0
        }
    }

    fn packed_product(a: u128, b: u128) -> (r: u128) {
        let r: u128 = a & b;
        proof {
            assert forall|s: u128| aligned(s, 1) implies #[trigger] Self::of_bits(r >> s)
                == Self::of_bits(a >> s).mul(Self::of_bits(b >> s)) by {
                assert((((a & b) >> s) & 1 == 1) == ((a >> s) & 1 == 1 && (b >> s) & 1 == 1))
                    by (bit_vector)
                    requires
                        s < 128,
                ;
            }
        }
        r
    }

    fn packed_times_generator(a: u128) -> (r: u128) {
        a
    }

    proof fn low_bits(u: u128, v: u128) {
        assert((u ^ v) << 127u128 == 0 ==> ((u & 1 == 1) == (v & 1 == 1))) by (bit_vector);
    }

    proof fn generator_has_no_half(s: Self) {
    }

    proof fn quadratic_has_no_root(y: Self) {
    }

    proof fn width_is_power() {
    }

    proof fn bits_fit(a: Self) {
        assert(0u128 >> 1u128 == 0 && 1u128 >> 1u128 == 0) by (bit_vector);
    }

    proof fn bits_round_trip(bits: u128) {
        assert(bits >> 1u128 == 0 ==> bits == if bits & 1 == 1 { 1u128 } else { 0u128 })
            by (bit_vector);
    }

    proof fn elements_round_trip(a: Self) {
        assert(0u128 & 1 == 0 && 1u128 & 1 == 1) by (bit_vector);
    }

    proof fn bits_xor(a: u128, b: u128) {
        assert(((a ^ b) & 1 == 1) == ((a & 1 == 1) != (b & 1 == 1))) by (bit_vector);
    }

    proof fn bits_units() {
        assert(0u128 & 1 == 0 && 1u128 & 1 == 1) by (bit_vector);
    }
}

/// The quadratic extension of a level: `lo + hi X` with `X^2 = g X + 1`.
#[derive(Clone, Copy, Debug, PartialEq, Eq, Structural)]
pub struct Quad<L> {
    pub lo: L,
    pub hi: L,
}

/// The norm `lo^2 + g lo hi + hi^2` of an element down to the level below.
pub open spec fn norm<L: TowerLevel>(a: Quad<L>) -> L {
    a.lo.mul(a.lo).add(L::generator().mul(a.lo.mul(a.hi))).add(a.hi.mul(a.hi))
}

/// The norm vanishes at zero only.
pub proof fn lemma_norm_zero<L: TowerLevel>(a: Quad<L>)
    ensures
        norm(a) == L::zero() <==> a == (Quad { lo: L::zero(), hi: L::zero() }),
{
    let g = L::generator();
    lemma_units(L::zero());
    lemma_units(g);
    if a.hi == L::zero() {
        lemma_units(a.lo);
        lemma_units(a.lo.mul(a.lo));
        lemma_mul_eq_zero(a.lo, a.lo);
    } else {
        // Divide by hi^2.
        let h = a.hi.inv();
        let y = a.lo.mul(h);
        L::mul_inv(a.hi);
        L::mul_comm(a.hi, h);
        // lo = y * hi
        assert(y.mul(a.hi) == a.lo) by {
            L::mul_assoc(a.lo, h, a.hi);
            L::mul_one(a.lo);
        }
        let hh = a.hi.mul(a.hi);
        assert(a.lo.mul(a.lo) == y.mul(y).mul(hh)) by {
            lemma_mul_swap(y, a.hi, y, a.hi);
        }
        assert(g.mul(a.lo.mul(a.hi)) == g.mul(y).mul(hh)) by {
            L::mul_assoc(y, a.hi, a.hi);
            L::mul_assoc(g, y, hh);
        }
        let q = y.mul(y).add(g.mul(y)).add(L::one());
        assert(norm(a) == q.mul(hh)) by {
            lemma_add_mul(y.mul(y), g.mul(y), hh);
            lemma_add_mul(y.mul(y).add(g.mul(y)), L::one(), hh);
            lemma_units(hh);
        }
        L::quadratic_has_no_root(y);
        lemma_mul_eq_zero(a.hi, a.hi);
        lemma_mul_eq_zero(q, hh);
    }
}

impl<L: TowerLevel> BinaryField for Quad<L> {
    open spec fn zero() -> Self {
        Quad { lo: L::zero(), hi: L::zero() }
    }

    open spec fn one() -> Self {
        Quad { lo: L::one(), hi: L::zero() }
    }

    open spec fn add(self, rhs: Self) -> Self {
        Quad { lo: self.lo.add(rhs.lo), hi: self.hi.add(rhs.hi) }
    }

    open spec fn mul(self, rhs: Self) -> Self {
        Quad {
            lo: self.lo.mul(rhs.lo).add(self.hi.mul(rhs.hi)),
            hi: self.lo.mul(rhs.hi).add(self.hi.mul(rhs.lo)).add(
                self.hi.mul(rhs.hi).mul(L::generator()),
            ),
        }
    }

    open spec fn inv(self) -> Self {
        let n = norm(self).inv();
        Quad { lo: self.lo.add(self.hi.mul(L::generator())).mul(n), hi: self.hi.mul(n) }
    }

    fn zero_value() -> (r: Self) {
        Quad { lo: L::zero_value(), hi: L::zero_value() }
    }

    fn one_value() -> (r: Self) {
        Quad { lo: L::one_value(), hi: L::zero_value() }
    }

    fn plus(self, rhs: Self) -> (r: Self) {
        Quad { lo: self.lo.plus(rhs.lo), hi: self.hi.plus(rhs.hi) }
    }

    fn times(self, rhs: Self) -> (r: Self) {
        let low = self.lo.times(rhs.lo);
        let high = self.hi.times(rhs.hi);
        let cross = self.lo.plus(self.hi).times(rhs.lo.plus(rhs.hi));
        let mid = cross.plus(low).plus(high);
        proof {
            // (a + b)(c + d) + ac + bd == ad + bc
            let (a, b, c, d) = (self.lo, self.hi, rhs.lo, rhs.hi);
            let (ac, ad, bc, bd) = (a.mul(c), a.mul(d), b.mul(c), b.mul(d));
            lemma_add_mul(a, b, c.add(d));
            L::mul_add(a, c, d);
            L::mul_add(b, c, d);
            assert(cross == ac.add(ad).add(bc.add(bd)));
            L::add_comm(bc, bd);
            lemma_add_swap(ac, ad, bd, bc);
            assert(cross == ac.add(bd).add(ad.add(bc)));
            L::add_assoc(cross, low, high);
            lemma_add_cancel(ac.add(bd), ad.add(bc));
        }
        Quad { lo: low.plus(high), hi: mid.plus(high.times_generator()) }
    }

    fn invert(self) -> (r: Self) {
        proof {
            lemma_norm_zero(self);
            L::mul_comm(L::generator(), self.lo.mul(self.hi));
        }
        let n = self.lo.times(self.lo).plus(self.lo.times(self.hi).times_generator()).plus(
            self.hi.times(self.hi),
        ).invert();
        Quad { lo: self.lo.plus(self.hi.times_generator()).times(n), hi: self.hi.times(n) }
    }

    fn equals(self, rhs: Self) -> (r: bool) {
        self.lo.equals(rhs.lo) && self.hi.equals(rhs.hi)
    }

    proof fn add_comm(a: Self, b: Self) {
        L::add_comm(a.lo, b.lo);
        L::add_comm(a.hi, b.hi);
    }

    proof fn add_assoc(a: Self, b: Self, c: Self) {
        L::add_assoc(a.lo, b.lo, c.lo);
        L::add_assoc(a.hi, b.hi, c.hi);
    }

    proof fn add_zero(a: Self) {
        L::add_zero(a.lo);
        L::add_zero(a.hi);
    }

    proof fn add_self(a: Self) {
        L::add_self(a.lo);
        L::add_self(a.hi);
    }

    proof fn mul_comm(a: Self, b: Self) {
        L::mul_comm(a.lo, b.lo);
        L::mul_comm(a.hi, b.hi);
        L::mul_comm(a.lo, b.hi);
        L::mul_comm(a.hi, b.lo);
        L::add_comm(a.lo.mul(b.hi), a.hi.mul(b.lo));
    }

    proof fn mul_assoc(a: Self, b: Self, c: Self) {
        lemma_quad_assoc(a, b, c);
    }

    proof fn mul_one(a: Self) {
        lemma_units(a.lo);
        lemma_units(a.hi);
        lemma_units(L::generator());
    }

    proof fn mul_add(a: Self, b: Self, c: Self) {
        lemma_quad_distributes(a, b, c);
    }

    proof fn one_not_zero() {
        L::one_not_zero();
    }

    proof fn mul_inv(a: Self) {
        let g = L::generator();
        let n = norm(a);
        let m = n.inv();
        lemma_norm_zero(a);
        L::mul_inv(n);
        let cl = a.lo.add(a.hi.mul(g));
        // low part: (lo * cl + hi * hi) * m == n * m
        let low = a.lo.mul(cl).add(a.hi.mul(a.hi));
        assert(low == n) by {
            L::mul_add(a.lo, a.lo, a.hi.mul(g));
            L::mul_assoc(a.lo, a.hi, g);
            L::mul_comm(a.lo.mul(a.hi), g);
        }
        assert(a.lo.mul(cl.mul(m)).add(a.hi.mul(a.hi.mul(m))) == L::one()) by {
            L::mul_assoc(a.lo, cl, m);
            L::mul_assoc(a.hi, a.hi, m);
            lemma_add_mul(a.lo.mul(cl), a.hi.mul(a.hi), m);
        }
        // high part: lo * hi + hi * cl + hi * hi * g == 0
        let hm = a.hi.mul(m);
        let p = a.lo.mul(hm).add(a.hi.mul(cl.mul(m)));
        let q = a.hi.mul(hm).mul(g);
        let lh = a.lo.mul(a.hi);
        let hhg = a.hi.mul(a.hi).mul(g);
        assert(a.lo.mul(hm) == lh.mul(m)) by {
            L::mul_assoc(a.lo, a.hi, m);
        }
        assert(a.hi.mul(cl.mul(m)) == lh.add(hhg).mul(m)) by {
            L::mul_assoc(a.hi, cl, m);
            L::mul_add(a.hi, a.lo, a.hi.mul(g));
            L::mul_comm(a.hi, a.lo);
            L::mul_assoc(a.hi, a.hi, g);
        }
        assert(q == hhg.mul(m)) by {
            L::mul_assoc(a.hi, a.hi, m);
            L::mul_assoc(a.hi.mul(a.hi), m, g);
            L::mul_comm(m, g);
            L::mul_assoc(a.hi.mul(a.hi), g, m);
        }
        assert(p == hhg.mul(m)) by {
            lemma_add_mul(lh, lh.add(hhg), m);
            lemma_add_cancel(lh, hhg);
        }
        L::add_self(q);
    }
}

/// Products of sums, for [`Quad`].
proof fn lemma_quad_distributes<L: TowerLevel>(a: Quad<L>, b: Quad<L>, c: Quad<L>)
    ensures
        a.mul(b.add(c)) == a.mul(b).add(a.mul(c)),
{
    let g = L::generator();
    L::mul_add(a.lo, b.lo, c.lo);
    L::mul_add(a.hi, b.hi, c.hi);
    lemma_add_swap(a.lo.mul(b.lo), a.lo.mul(c.lo), a.hi.mul(b.hi), a.hi.mul(c.hi));
    L::mul_add(a.lo, b.hi, c.hi);
    L::mul_add(a.hi, b.lo, c.lo);
    lemma_add_swap(a.lo.mul(b.hi), a.lo.mul(c.hi), a.hi.mul(b.lo), a.hi.mul(c.lo));
    lemma_add_mul(a.hi.mul(b.hi), a.hi.mul(c.hi), g);
    lemma_add_swap(
        a.lo.mul(b.hi).add(a.hi.mul(b.lo)),
        a.lo.mul(c.hi).add(a.hi.mul(c.lo)),
        a.hi.mul(b.hi).mul(g),
        a.hi.mul(c.hi).mul(g),
    );
}

/// The product with an element of the level below.
spec fn scaled<L: TowerLevel>(k: L, a: Quad<L>) -> Quad<L> {
    Quad { lo: k.mul(a.lo), hi: k.mul(a.hi) }
}

/// The product with the adjoined root.
spec fn rooted<L: TowerLevel>(a: Quad<L>) -> Quad<L> {
    Quad { lo: a.hi, hi: a.lo.add(a.hi.mul(L::generator())) }
}

/// A product splits into its low and its high factor.
proof fn lemma_quad_split<L: TowerLevel>(a: Quad<L>, b: Quad<L>)
    ensures
        a.mul(b) == scaled(a.lo, b).add(rooted(scaled(a.hi, b))),
{
    L::add_assoc(a.lo.mul(b.hi), a.hi.mul(b.lo), a.hi.mul(b.hi).mul(L::generator()));
}

/// The product with the root commutes with products.
proof fn lemma_rooted_mul<L: TowerLevel>(a: Quad<L>, b: Quad<L>)
    ensures
        rooted(a).mul(b) == rooted(a.mul(b)),
{
    let g = L::generator();
    let (al, ah, bl, bh) = (a.lo, a.hi, b.lo, b.hi);
    let ahg = ah.mul(g);
    // low: ah bl + (al + ah g) bh == al bh + ah bl + ah bh g
    assert(ahg.mul(bh) == ah.mul(bh).mul(g)) by {
        L::mul_assoc(ah, g, bh);
        L::mul_comm(g, bh);
        L::mul_assoc(ah, bh, g);
    }
    assert(ahg.mul(bl) == ah.mul(bl).mul(g)) by {
        L::mul_assoc(ah, g, bl);
        L::mul_comm(g, bl);
        L::mul_assoc(ah, bl, g);
    }
    let x = al.mul(bh);
    let y = ah.mul(bl);
    let z = ah.mul(bh).mul(g);
    lemma_add_mul(al, ahg, bh);
    assert(rooted(a).mul(b).lo == y.add(x.add(z)));
    L::add_assoc(y, x, z);
    L::add_comm(y, x);
    assert(rooted(a).mul(b).lo == rooted(a.mul(b)).lo);
    // high: ah bh + (al + ah g) bl + (al + ah g) bh g
    lemma_add_mul(al, ahg, bl);
    lemma_add_mul(x, z, g);
    let u = al.mul(bl);
    let v = ah.mul(bh);
    let w = y.mul(g);
    let xg = x.mul(g);
    let zg = z.mul(g);
    assert(rooted(a).mul(b).hi == v.add(u.add(w)).add(xg.add(zg)));
    // target: (u + v) + (x + y + z) g
    lemma_add_mul(x.add(y), z, g);
    lemma_add_mul(x, y, g);
    assert(rooted(a.mul(b)).hi == u.add(v).add(xg.add(w).add(zg)));
    L::add_assoc(v, u, w);
    L::add_comm(v, u);
    L::add_assoc(u.add(v), w, xg.add(zg));
    L::add_assoc(w, xg, zg);
    L::add_comm(w, xg);
}

/// The product with an element of the level below commutes with products.
proof fn lemma_scaled_mul<L: TowerLevel>(k: L, a: Quad<L>, b: Quad<L>)
    ensures
        scaled(k, a).mul(b) == scaled(k, a.mul(b)),
{
    let g = L::generator();
    L::mul_assoc(k, a.lo, b.lo);
    L::mul_assoc(k, a.hi, b.hi);
    L::mul_assoc(k, a.lo, b.hi);
    L::mul_assoc(k, a.hi, b.lo);
    L::mul_add(k, a.lo.mul(b.lo), a.hi.mul(b.hi));
    L::mul_add(k, a.lo.mul(b.hi), a.hi.mul(b.lo));
    L::mul_add(k, a.lo.mul(b.hi).add(a.hi.mul(b.lo)), a.hi.mul(b.hi).mul(g));
    L::mul_assoc(k, a.hi.mul(b.hi), g);
}

/// Associativity of the product, for [`Quad`].
proof fn lemma_quad_assoc<L: TowerLevel>(a: Quad<L>, b: Quad<L>, c: Quad<L>)
    ensures
        a.mul(b).mul(c) == a.mul(b.mul(c)),
{
    let s = scaled(a.lo, b);
    let t = rooted(scaled(a.hi, b));
    lemma_quad_split(a, b);
    // (s + t) c == s c + t c
    lemma_quad_commutes(s.add(t), c);
    lemma_quad_distributes(c, s, t);
    lemma_quad_commutes(s, c);
    lemma_quad_commutes(t, c);
    lemma_scaled_mul(a.lo, b, c);
    lemma_rooted_mul(scaled(a.hi, b), c);
    lemma_scaled_mul(a.hi, b, c);
    lemma_quad_split(a, b.mul(c));
}

/// Commutativity of the product, for [`Quad`].
proof fn lemma_quad_commutes<L: TowerLevel>(a: Quad<L>, b: Quad<L>)
    ensures
        a.mul(b) == b.mul(a),
{
    <Quad<L> as BinaryField>::mul_comm(a, b);
}

/// The adjoined root is not of the form `s^2 + s` when the generator below is
/// not.
proof fn lemma_root_has_no_half<L: TowerLevel>(s: Quad<L>)
    ensures
        s.mul(s).add(s) != (Quad { lo: L::zero(), hi: L::one() }),
{
    let g = L::generator();
    let (a, b) = (s.lo, s.hi);
    if s.mul(s).add(s).hi == L::one() {
        let bb = b.mul(b);
        // The high part of s^2 is b^2 g.
        L::mul_comm(a, b);
        L::add_self(a.mul(b));
        lemma_units(bb.mul(g));
        assert(bb.mul(g).add(b) == L::one());
        let t = b.mul(g);
        // t^2 + t == (b^2 g + b) g == g
        lemma_mul_swap(b, g, b, g);
        L::mul_assoc(bb, g, g);
        lemma_add_mul(bb.mul(g), b, g);
        lemma_units(g);
        assert(t.mul(t).add(t) == g);
        L::generator_has_no_half(t);
    }
}

/// `Y^2 + X Y + 1` has no root among the elements `lo + hi X`.
proof fn lemma_root_quadratic<L: TowerLevel>(y: Quad<L>)
    ensures
        y.mul(y).add((Quad { lo: L::zero(), hi: L::one() }).mul(y)).add(
            Quad { lo: L::one(), hi: L::zero() },
        ) != (Quad { lo: L::zero(), hi: L::zero() }),
{
    let g = L::generator();
    let root = Quad { lo: L::zero(), hi: L::one() };
    let (a, b) = (y.lo, y.hi);
    let (aa, bb) = (a.mul(a), b.mul(b));
    let bg = b.mul(g);
    assert(root.mul(y).lo == b && root.mul(y).hi == a.add(bg)) by {
        lemma_units(a);
        lemma_units(b);
    }
    assert(y.mul(y).lo == aa.add(bb) && y.mul(y).hi == bb.mul(g)) by {
        L::mul_comm(a, b);
        L::add_self(a.mul(b));
        lemma_units(bb.mul(g));
    }
    let whole = y.mul(y).add(root.mul(y)).add(Quad { lo: L::one(), hi: L::zero() });
    if whole == (Quad { lo: L::zero(), hi: L::zero() }) {
        let c = bb.add(b);
        // The high part: b^2 g + (a + b g) == 0, so a == c g.
        let h = bb.mul(g).add(a.add(bg));
        assert(h == L::zero()) by {
            lemma_units(h);
        }
        assert(a == c.mul(g)) by {
            L::add_comm(a, bg);
            L::add_assoc(bb.mul(g), bg, a);
            lemma_add_mul(bb, b, g);
            crate::field::lemma_add_eq_zero(c.mul(g), a);
        }
        // The low part: a^2 + c + 1 == 0.
        assert(aa.add(c).add(L::one()) == L::zero()) by {
            L::add_assoc(aa, bb, b);
        }
        // d == a + 1 is the square root of c.
        let d = a.add(L::one());
        assert(d.mul(d) == c) by {
            lemma_square_add(a, L::one());
            lemma_units(L::one());
            L::add_assoc(aa, c, L::one());
            L::add_comm(c, L::one());
            L::add_assoc(aa, L::one(), c);
            crate::field::lemma_add_eq_zero(aa.add(L::one()), c);
        }
        L::one_not_zero();
        if c == L::zero() {
            lemma_units(g);
            lemma_units(L::zero());
            lemma_units(L::one());
            assert(false);
        }
        lemma_mul_eq_zero(d, d);
        let s = d.inv();
        L::mul_inv(d);
        // c (s^2 + s) == 1 + d == a == c g
        let e = s.mul(s).add(s);
        assert(c.mul(s.mul(s)) == L::one()) by {
            lemma_mul_swap(d, d, s, s);
            lemma_units(L::one());
        }
        assert(c.mul(s) == d) by {
            L::mul_assoc(d, d, s);
            lemma_units(d);
        }
        assert(c.mul(e) == a) by {
            L::mul_add(c, s.mul(s), s);
            L::add_comm(a, L::one());
            lemma_add_cancel(L::one(), a);
        }
        assert(e == g) by {
            L::mul_add(c, e, g);
            L::add_self(c.mul(g));
            lemma_mul_eq_zero(c, e.add(g));
            crate::field::lemma_add_eq_zero(e, g);
        }
        L::generator_has_no_half(s);
    }
}

/// The two halves of a word, and of an exclusive-or of words.
proof fn lemma_halves(x: u128, y: u128, w: u128)
    requires
        power_width(w),
        w <= 64,
    ensures
        (x ^ y) & !(!0u128 << w) == (x & !(!0u128 << w)) ^ (y & !(!0u128 << w)),
        (x ^ y) >> w == (x >> w) ^ (y >> w),
        (x & !(!0u128 << w)) >> w == 0,
        (x & !(!0u128 << w)) | ((x >> w) << w) == x,
        0u128 & !(!0u128 << w) == 0,
        1u128 & !(!0u128 << w) == 1,
        0u128 >> w == 0,
        1u128 >> w == 0,
{
    let m = !(!0u128 << w);
    assert((x ^ y) & m == (x & m) ^ (y & m)) by (bit_vector);
    assert((x ^ y) >> w == (x >> w) ^ (y >> w)) by (bit_vector)
        requires
            w == 1 || w == 2 || w == 4 || w == 8 || w == 16 || w == 32 || w == 64,
    ;
    assert((x & !(!0u128 << w)) >> w == 0) by (bit_vector)
        requires
            1 <= w <= 64,
    ;
    assert((x & !(!0u128 << w)) | ((x >> w) << w) == x) by (bit_vector)
        requires
            1 <= w <= 64,
    ;
    assert(0u128 & !(!0u128 << w) == 0 && 1u128 & !(!0u128 << w) == 1 && 0u128 >> w == 0 && 1u128
        >> w == 0) by (bit_vector)
        requires
            1 <= w <= 64,
    ;
}

/// Two halves put together come apart again.
proof fn lemma_joined(lo: u128, hi: u128, w: u128, double: u128)
    by (bit_vector)
    requires
        1 <= w <= 64,
        double == w + w,
        lo >> w == 0,
        hi >> w == 0,
    ensures
        (lo | (hi << w)) & !(!0u128 << w) == lo,
        (lo | (hi << w)) >> w == hi,
        w < 64 ==> (lo | (hi << w)) >> double == 0,
{
}

/// A word of two halves has no bits above its width.
proof fn lemma_half_fits(x: u128, w: u128, double: u128)
    by (bit_vector)
    requires
        1 <= w < 64,
        double == w + w,
        x >> double == 0,
    ensures
        (x >> w) >> w == 0,
{
}

proof fn lemma_top_half_fits(x: u128)
    by (bit_vector)
    ensures
        (x >> 64u128) >> 64u128 == 0,
{
}

/// What a word `r` made of lower blocks of `lo` and upper blocks of `hi` holds at
/// the place of a pair; and `x` moved up by a block.
proof fn lemma_packed_at<L: TowerLevel>(r: u128, lo: u128, hi: u128, x: u128, s: u128)
    requires
        L::width() <= 64,
        aligned(s, (2 * L::width()) as u128),
        ({
            let m = lower_blocks(L::width());
            r == (lo & m) | (hi & !m) || (r == lo && r == hi)
        }),
    ensures
        ({
            let w = L::width();
            let t = (s + w) as u128;
            &&& aligned(s, w)
            &&& aligned(t, w)
            &&& <Quad<L> as TowerLevel>::of_bits(r >> s) == (Quad {
                lo: L::of_bits(lo >> s),
                hi: L::of_bits(hi >> t),
            })
            &&& L::of_bits(r >> s) == L::of_bits(lo >> s)
            &&& L::of_bits(r >> t) == L::of_bits(hi >> t)
            &&& L::of_bits((x << w) >> t) == L::of_bits(x >> s)
        }),
{
    L::width_is_power();
    let w = L::width();
    let t = (s + w) as u128;
    let up = (128 - w) as u128;
    lemma_blocks(lo, hi, x, w, s);
    lemma_blocks(lo, hi, r, w, s);
    let y = r >> s;
    lemma_same_masked(y, w, up);
    L::low_bits(y & !(!0u128 << w), y);
    L::low_bits((x << w) >> t, x >> s);
    if r == lo && r == hi {
        let m = lower_blocks(w);
        assert((r & m) | (r & !m) == r) by (bit_vector);
    }
    L::low_bits(r >> s, lo >> s);
    L::low_bits(r >> t, hi >> t);
}

impl<L: TowerLevel> TowerLevel for Quad<L> {
    open spec fn generator() -> Self {
        Quad { lo: L::zero(), hi: L::one() }
    }

    open spec fn width() -> u128 {
        if L::width() <= 64 {
            (2 * L::width()) as u128
        } else {
            u128::MAX
        }
    }

    open spec fn of_bits(bits: u128) -> Self {
        Quad {
            lo: L::of_bits(bits & !(!0u128 << L::width())),
            hi: L::of_bits(bits >> L::width()),
        }
    }

    open spec fn to_bits(self) -> u128 {
        self.lo.to_bits() | (self.hi.to_bits() << L::width())
    }

    fn times_generator(self) -> (r: Self) {
        proof {
            lemma_units(self.lo);
            lemma_units(self.hi);
        }
        Quad { lo: self.hi, hi: self.lo.plus(self.hi.times_generator()) }
    }

    fn width_value() -> (r: u128) {
        let w: u128 = L::width_value();
        if w <= 64 {
            2 * w
        } else {
            u128::MAX
        }
    }

    fn from_bits(bits: u128) -> (r: Self) {
        let w: u128 = L::width_value();
        Quad { lo: L::from_bits(bits & !(!0u128 << w)), hi: L::from_bits(bits >> w) }
    }

    fn into_bits(self) -> (r: u128) {
        let w: u128 = L::width_value();
        self.lo.into_bits() | (self.hi.into_bits() << w)
    }

    #[inline]
    fn packed_product(a: u128, b: u128) -> (r: u128) {
        proof {
            L::width_is_power();
        }
        let w: u128 = L::width_value();
        let m: u128 = lower_blocks_value(w);
        let swapped: u128 = ((b >> w) & m) | ((b << w) & !m);
        let p: u128 = L::packed_product(a, b);
        let q: u128 = L::packed_product(a, swapped);
        let g: u128 = L::packed_times_generator(p);
        let lo: u128 = p ^ (p >> w);
        let hi: u128 = (q ^ (q << w)) ^ g;
        let r: u128 = (lo & m) | (hi & !m);
        proof {
            assert forall|s: u128| aligned(s, Self::width()) implies #[trigger] Self::of_bits(r >> s)
                == Self::of_bits(a >> s).mul(Self::of_bits(b >> s)) by {
                let t = (s + w) as u128;
                lemma_packed_at::<L>(r, lo, hi, q, s);
                lemma_packed_at::<L>(swapped, b >> w, b << w, b, s);
                lemma_packed_at::<L>(a, a, a, a, s);
                lemma_packed_at::<L>(b, b, b, b, s);
                lemma_blocks(lo, hi, p, w, s);
                lemma_blocks(lo, hi, b, w, s);
                let (al, ah) = (L::of_bits(a >> s), L::of_bits(a >> t));
                let (bl, bh) = (L::of_bits(b >> s), L::of_bits(b >> t));
                // The swapped word.
                assert(L::of_bits(swapped >> s) == bh);
                assert(L::of_bits(swapped >> t) == bl);
                assert(L::of_bits(p >> s) == al.mul(bl));
                assert(L::of_bits(p >> t) == ah.mul(bh));
                assert(L::of_bits(q >> s) == al.mul(bh));
                assert(L::of_bits(q >> t) == ah.mul(bl));
                assert(L::of_bits(g >> t) == ah.mul(bh).mul(L::generator()));
                // The lower half.
                lemma_shift_xor(p, p >> w, s);
                L::bits_xor(p >> s, p >> t);
                assert(L::of_bits(lo >> s) == al.mul(bl).add(ah.mul(bh)));
                // The upper half.
                lemma_shift_xor(q ^ (q << w), g, t);
                lemma_shift_xor(q, q << w, t);
                L::bits_xor((q >> t) ^ ((q << w) >> t), g >> t);
                L::bits_xor(q >> t, (q << w) >> t);
                L::add_comm(ah.mul(bl), al.mul(bh));
                assert(L::of_bits(hi >> t) == al.mul(bh).add(ah.mul(bl)).add(
                    ah.mul(bh).mul(L::generator()),
                ));
            }
        }
        r
    }

    #[inline]
    fn packed_times_generator(a: u128) -> (r: u128) {
        proof {
            L::width_is_power();
        }
        let w: u128 = L::width_value();
        let m: u128 = lower_blocks_value(w);
        let g: u128 = L::packed_times_generator(a);
        let lo: u128 = a >> w;
        let hi: u128 = (a << w) ^ g;
        let r: u128 = (lo & m) | (hi & !m);
        proof {
            assert forall|s: u128| aligned(s, Self::width()) implies #[trigger] Self::of_bits(r >> s)
                == Self::of_bits(a >> s).mul(Self::generator()) by {
                let t = (s + w) as u128;
                lemma_packed_at::<L>(r, lo, hi, a, s);
                lemma_packed_at::<L>(a, a, a, a, s);
                lemma_blocks(lo, hi, a, w, s);
                let (al, ah) = (L::of_bits(a >> s), L::of_bits(a >> t));
                assert(L::of_bits(lo >> s) == ah);
                lemma_shift_xor(a << w, g, t);
                L::bits_xor((a << w) >> t, g >> t);
                assert(L::of_bits(hi >> t) == al.add(ah.mul(L::generator())));
                lemma_units(al);
                lemma_units(ah);
            }
        }
        r
    }

    proof fn low_bits(u: u128, v: u128) {
        L::width_is_power();
        let w = L::width();
        lemma_same_halves(u, v, w, (128 - (w + w)) as u128, (128 - w) as u128);
        L::low_bits(u >> w, v >> w);
    }

    proof fn generator_has_no_half(s: Self) {
        lemma_root_has_no_half(s);
    }

    proof fn quadratic_has_no_root(y: Self) {
        lemma_root_quadratic(y);
    }

    proof fn width_is_power() {
        L::width_is_power();
    }

    proof fn bits_fit(a: Self) {
        L::width_is_power();
        L::bits_fit(a.lo);
        L::bits_fit(a.hi);
        lemma_joined(a.lo.to_bits(), a.hi.to_bits(), L::width(), Self::width());
    }

    proof fn bits_round_trip(bits: u128) {
        L::width_is_power();
        let w = L::width();
        lemma_halves(bits, 0, w);
        if w < 64 {
            lemma_half_fits(bits, w, Self::width());
        } else {
            lemma_top_half_fits(bits);
        }
        L::bits_round_trip(bits & !(!0u128 << w));
        L::bits_round_trip(bits >> w);
    }

    proof fn elements_round_trip(a: Self) {
        L::width_is_power();
        L::bits_fit(a.lo);
        L::bits_fit(a.hi);
        lemma_joined(a.lo.to_bits(), a.hi.to_bits(), L::width(), Self::width());
        L::elements_round_trip(a.lo);
        L::elements_round_trip(a.hi);
    }

    proof fn bits_xor(a: u128, b: u128) {
        L::width_is_power();
        let w = L::width();
        lemma_halves(a, b, w);
        L::bits_xor(a & !(!0u128 << w), b & !(!0u128 << w));
        L::bits_xor(a >> w, b >> w);
    }

    proof fn bits_units() {
        L::width_is_power();
        lemma_halves(0, 0, L::width());
        L::bits_units();
    }
}

/// The field with 2^64 elements, six levels above [`Bit`].
pub type Level64 = Quad<Quad<Quad<Quad<Quad<Quad<Bit>>>>>>;

/// The level with 2^128 elements, seven levels above [`Bit`].
pub type Level128 = Quad<Level64>;

/// The product of two words, as elements of a level.
#[verifier::opaque]
pub open spec fn word_product<L: TowerLevel>(a: u128, b: u128) -> u128 {
    L::of_bits(a).mul(L::of_bits(b)).to_bits()
}

/// The inverse of a word, as an element of a level.
#[verifier::opaque]
pub open spec fn word_inverse<L: TowerLevel>(a: u128) -> u128 {
    L::of_bits(a).inv().to_bits()
}

/// The words of a level of 128 bits form a field, added bit by bit.
proof fn lemma_word_field<L: TowerLevel>(a: u128, b: u128, c: u128)
    requires
        L::width() == 128,
    ensures
        word_product::<L>(a, b) == word_product::<L>(b, a),
        word_product::<L>(word_product::<L>(a, b), c) == word_product::<L>(
            a,
            word_product::<L>(b, c),
        ),
        word_product::<L>(a, 1) == a,
        word_product::<L>(a, 0) == 0,
        word_product::<L>(a, b ^ c) == word_product::<L>(a, b) ^ word_product::<L>(a, c),
        a != 0 ==> word_product::<L>(a, word_inverse::<L>(a)) == 1,
{
    reveal(word_product);
    reveal(word_inverse);
    let (x, y, z) = (L::of_bits(a), L::of_bits(b), L::of_bits(c));
    L::bits_units();
    L::bits_round_trip(0);
    L::bits_round_trip(1);
    L::bits_round_trip(a);
    L::mul_comm(x, y);
    L::elements_round_trip(x.mul(y));
    L::elements_round_trip(y.mul(z));
    L::mul_assoc(x, y, z);
    L::mul_one(x);
    lemma_units(x);
    L::bits_xor(b, c);
    L::mul_add(x, y, z);
    let (p, q) = (x.mul(y).to_bits(), x.mul(z).to_bits());
    L::elements_round_trip(x.mul(z));
    L::bits_xor(p, q);
    L::bits_round_trip(p ^ q);
    if a != 0 {
        L::mul_inv(x);
        L::elements_round_trip(x.inv());
    }
}

/// Computes [`word_product`].
fn product_of_words<L: TowerLevel>(a: u128, b: u128) -> (r: u128)
    requires
        L::width() == 128,
    ensures
        r == word_product::<L>(a, b),
{
    let r: u128 = L::packed_product(a, b);
    proof {
        reveal(word_product);
        assert(0u128 & 127 == 0) by (bit_vector);
        assert(aligned(0, 128));
        assert(a >> 0u128 == a && b >> 0u128 == b && r >> 0u128 == r) by (bit_vector);
        assert(L::of_bits(r >> 0u128) == L::of_bits(a).mul(L::of_bits(b)));
        L::bits_round_trip(r);
    }
    r
}

/// Computes [`word_inverse`].
fn inverse_of_word<L: TowerLevel>(a: u128) -> (r: u128)
    requires
        L::width() == 128,
        a != 0,
    ensures
        r == word_inverse::<L>(a),
{
    proof {
        reveal(word_inverse);
        L::bits_units();
        L::bits_round_trip(0);
        L::bits_round_trip(a);
    }
    L::from_bits(a).invert().into_bits()
}

/// The field with 2^128 elements, each the word of its bits.
#[derive(Clone, Copy, Debug, PartialEq, Eq, Structural)]
pub struct Tower128(pub u128);

/// The width of [`Level128`] is 128.
proof fn lemma_level128_width()
    ensures
        Level128::width() == 128,
{
    assert(<Quad<Bit> as TowerLevel>::width() == 2);
    assert(<Quad<Quad<Bit>> as TowerLevel>::width() == 4);
    assert(<Quad<Quad<Quad<Bit>>> as TowerLevel>::width() == 8);
    assert(<Quad<Quad<Quad<Quad<Bit>>>> as TowerLevel>::width() == 16);
    assert(<Quad<Quad<Quad<Quad<Quad<Bit>>>>> as TowerLevel>::width() == 32);
    assert(Level64::width() == 64);
}

impl BinaryField for Tower128 {
    open spec fn zero() -> Self {
        Tower128(0)
    }

    open spec fn one() -> Self {
        Tower128(1)
    }

    open spec fn add(self, rhs: Self) -> Self {
        Tower128(self.0 ^ rhs.0)
    }

    open spec fn mul(self, rhs: Self) -> Self {
        Tower128(word_product::<Level128>(self.0, rhs.0))
    }

    open spec fn inv(self) -> Self {
        Tower128(word_inverse::<Level128>(self.0))
    }

    fn zero_value() -> (r: Self) {
        Tower128(0)
    }

    fn one_value() -> (r: Self) {
        Tower128(1)
    }

    fn plus(self, rhs: Self) -> (r: Self) {
        Tower128(self.0 ^ rhs.0)
    }

    fn times(self, rhs: Self) -> (r: Self) {
        proof {
            lemma_level128_width();
            lemma_word_field::<Level128>(self.0, rhs.0, 0);
            lemma_word_field::<Level128>(rhs.0, self.0, 0);
        }
        if self.0 == 0 || rhs.0 == 0 {
            return Tower128(0);
        }
        if self.0 == 1 {
            return rhs;
        }
        if rhs.0 == 1 {
            return self;
        }
        Tower128(product_of_words::<Level128>(self.0, rhs.0))
    }

    fn invert(self) -> (r: Self) {
        proof {
            lemma_level128_width();
        }
        Tower128(inverse_of_word::<Level128>(self.0))
    }

    fn equals(self, rhs: Self) -> (r: bool) {
        self.0 == rhs.0
    }

    proof fn add_comm(a: Self, b: Self) {
        let (x, y) = (a.0, b.0);
        assert(x ^ y == y ^ x) by (bit_vector);
    }

    proof fn add_assoc(a: Self, b: Self, c: Self) {
        let (x, y, z) = (a.0, b.0, c.0);
        assert((x ^ y) ^ z == x ^ (y ^ z)) by (bit_vector);
    }

    proof fn add_zero(a: Self) {
        let x = a.0;
        assert(x ^ 0 == x) by (bit_vector);
    }

    proof fn add_self(a: Self) {
        let x = a.0;
        assert(x ^ x == 0) by (bit_vector);
    }

    proof fn mul_comm(a: Self, b: Self) {
        lemma_level128_width();
        lemma_word_field::<Level128>(a.0, b.0, 0);
    }

    proof fn mul_assoc(a: Self, b: Self, c: Self) {
        lemma_level128_width();
        lemma_word_field::<Level128>(a.0, b.0, c.0);
    }

    proof fn mul_one(a: Self) {
        lemma_level128_width();
        lemma_word_field::<Level128>(a.0, 1, 0);
    }

    proof fn mul_add(a: Self, b: Self, c: Self) {
        lemma_level128_width();
        lemma_word_field::<Level128>(a.0, b.0, c.0);
    }

    proof fn one_not_zero() {
    }

    proof fn mul_inv(a: Self) {
        lemma_level128_width();
        lemma_word_field::<Level128>(a.0, 0, 0);
    }
}

impl TowerField for Tower128 {
    open spec fn of_u128(bits: u128) -> Self {
        Tower128(bits)
    }

    open spec fn bits(self) -> u128 {
        self.0
    }

    fn from_u128(bits: u128) -> (r: Self) {
        Tower128(bits)
    }

    fn to_u128(self) -> (r: u128) {
        self.0
    }

    fn wipe(&mut self) {
        crate::wiping::zeroize_word(&mut self.0);
    }

    proof fn bits_of_u128(bits: u128) {
    }

    proof fn of_u128_bits(a: Self) {
    }

    proof fn of_u128_xor(a: u128, b: u128) {
    }

    proof fn of_u128_units() {
    }
}

} // verus!
