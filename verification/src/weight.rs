//! Single-precision weights, kept as their IEEE 754 bit patterns.
//!
//! Weights and scores are only ever *compared* here: sums and products are
//! formed by the caller. A bit pattern is therefore enough, and its numeric
//! meaning is the exact integer [`Weight::value`], counted in units of the
//! smallest subnormal.

use vstd::prelude::*;

verus! {

/// A single-precision number, by its bit pattern. `==` compares the patterns;
/// [`Weight::equals`] compares the numbers.
#[derive(Clone, Copy, Debug, PartialEq, Eq, Hash, Structural)]
pub struct Weight {
    pub bits: u32,
}

/// The pattern of positive zero.
pub const ZERO_BITS: u32 = 0;

/// The pattern of the most negative finite number.
pub const LOWEST_BITS: u32 = 0xff7f_ffff;

/// The patterns from here on carry a set sign bit.
pub const SIGN_BIT: u32 = 0x8000_0000;

/// The pattern of positive infinity; a greater magnitude is a NaN.
pub const INFINITY_BITS: u32 = 0x7f80_0000;

/// What a pattern without its sign stands for, in units of the smallest
/// subnormal. Infinity gets the value one step above the greatest finite
/// number, which is all that comparisons need.
pub open spec fn magnitude_value(magnitude: int) -> int {
    let exponent = magnitude / 0x80_0000;
    let fraction = magnitude % 0x80_0000;
    if exponent == 0 {
        fraction
    } else {
        (fraction + 0x80_0000) * vstd::arithmetic::power2::pow2((exponent - 1) as nat)
    }
}

impl Weight {
    /// Whether the sign bit is set.
    pub open spec fn negative(self) -> bool {
        self.bits >= SIGN_BIT
    }

    /// The pattern without its sign.
    pub open spec fn magnitude(self) -> int {
        if self.negative() {
            self.bits - SIGN_BIT
        } else {
            self.bits as int
        }
    }

    pub open spec fn nan(self) -> bool {
        self.magnitude() > INFINITY_BITS
    }

    /// The number, in units of the smallest subnormal (meaningless for a NaN).
    pub open spec fn value(self) -> int {
        if self.negative() {
            -magnitude_value(self.magnitude())
        } else {
            magnitude_value(self.magnitude())
        }
    }

    /// The place of the pattern in the IEEE total order: negative NaNs first,
    /// then the numbers with negative zero before positive zero, then the
    /// positive NaNs.
    pub open spec fn rank(self) -> int {
        if self.negative() {
            -1 - self.magnitude()
        } else {
            self.magnitude()
        }
    }

    /// The IEEE comparison `self > other`: false as soon as one is a NaN.
    pub open spec fn gt(self, other: Weight) -> bool {
        !self.nan() && !other.nan() && self.value() > other.value()
    }

    /// The IEEE comparison `self >= other`.
    pub open spec fn ge(self, other: Weight) -> bool {
        !self.nan() && !other.nan() && self.value() >= other.value()
    }

    /// The IEEE comparison `self == other`.
    pub open spec fn numerically_equal(self, other: Weight) -> bool {
        !self.nan() && !other.nan() && self.value() == other.value()
    }

    pub fn from_bits(bits: u32) -> (w: Weight)
        ensures
            w.bits == bits,
    {
        Weight { bits }
    }

    pub fn to_bits(self) -> (bits: u32)
        ensures
            bits == self.bits,
    {
        self.bits
    }

    /// Positive zero.
    pub fn zero() -> (w: Weight)
        ensures
            w.bits == ZERO_BITS,
    {
        Weight { bits: ZERO_BITS }
    }

    /// The most negative finite number.
    pub fn lowest() -> (w: Weight)
        ensures
            w.bits == LOWEST_BITS,
    {
        Weight { bits: LOWEST_BITS }
    }

    /// The rank in the total order.
    pub fn total_rank(self) -> (r: i64)
        ensures
            r == self.rank(),
    {
        if self.bits >= SIGN_BIT {
            -1i64 - ((self.bits - SIGN_BIT) as i64)
        } else {
            self.bits as i64
        }
    }

    pub fn is_nan(self) -> (b: bool)
        ensures
            b == self.nan(),
    {
        if self.bits >= SIGN_BIT {
            self.bits - SIGN_BIT > INFINITY_BITS
        } else {
            self.bits > INFINITY_BITS
        }
    }

    fn is_zero(self) -> (b: bool)
        ensures
            b == (self.magnitude() == 0),
    {
        self.bits == 0 || self.bits == SIGN_BIT
    }

    /// The IEEE comparison `self > other`.
    pub fn exceeds(self, other: Weight) -> (b: bool)
        ensures
            b == self.gt(other),
    {
        proof {
            lemma_value_follows_rank(self, other);
        }
        if self.is_nan() || other.is_nan() {
            false
        } else if self.is_zero() && other.is_zero() {
            false
        } else {
            self.total_rank() > other.total_rank()
        }
    }

    /// The IEEE comparison `self >= other`.
    pub fn at_least(self, other: Weight) -> (b: bool)
        ensures
            b == self.ge(other),
    {
        proof {
            lemma_value_follows_rank(self, other);
        }
        if self.is_nan() || other.is_nan() {
            false
        } else if self.is_zero() && other.is_zero() {
            true
        } else {
            self.total_rank() >= other.total_rank()
        }
    }

    /// The IEEE comparison `self == other`.
    pub fn equals(self, other: Weight) -> (b: bool)
        ensures
            b == self.numerically_equal(other),
    {
        proof {
            lemma_value_follows_rank(self, other);
        }
        if self.is_nan() || other.is_nan() {
            false
        } else if self.is_zero() && other.is_zero() {
            true
        } else {
            self.bits == other.bits
        }
    }

    /// The greatest of zero and the weights that are numbers.
    pub fn greatest(weights: &Vec<Weight>) -> (m: Weight)
        ensures
            m.is_greatest_of(weights@),
    {
        let mut m: Weight = Weight::zero();
        let mut i: usize = 0;
        while i < weights.len()
            invariant
                i <= weights.len(),
                m.is_greatest_of(weights@.take(i as int)),
            decreases weights.len() - i,
        {
            let w: Weight = weights[i];
            if w.exceeds(m) {
                m = w;
            }
            assert(weights@.take(i + 1)[i as int] == w);
            assert(forall|j: int|
                0 <= j < i ==> #[trigger] weights@.take(i + 1)[j] == weights@.take(i as int)[j]);
            i = i + 1;
        }
        assert(weights@.take(i as int) =~= weights@);
        m
    }

    /// `self` is the maximum of zero and those of `weights` that are numbers:
    /// positive zero when none of them is above zero.
    pub open spec fn is_greatest_of(self, weights: Seq<Weight>) -> bool {
        &&& !self.nan()
        &&& self.bits == ZERO_BITS || (self.value() > 0 && weights.contains(self))
        &&& forall|j: int|
            0 <= j < weights.len() && !(#[trigger] weights[j]).nan() ==> weights[j].value()
                <= self.value()
    }
}

proof fn lemma_magnitude_value_increases(m1: int, m2: int)
    requires
        0 <= m1 < m2,
    ensures
        0 <= magnitude_value(m1) < magnitude_value(m2),
{
    let e1 = m1 / 0x80_0000;
    let f1 = m1 % 0x80_0000;
    let e2 = m2 / 0x80_0000;
    let f2 = m2 % 0x80_0000;
    assert(e1 <= e2);
    if e2 > 0 {
        let p2 = vstd::arithmetic::power2::pow2((e2 - 1) as nat) as int;
        vstd::arithmetic::power2::lemma_pow2_pos((e2 - 1) as nat);
        assert(0x80_0000 * p2 <= (f2 + 0x80_0000) * p2) by (nonlinear_arith)
            requires
                f2 >= 0,
                p2 > 0,
        ;
        if e1 == 0 {
            assert(f1 < 0x80_0000 * p2) by (nonlinear_arith)
                requires
                    0 <= f1 < 0x80_0000,
                    p2 > 0,
            ;
        } else {
            let p1 = vstd::arithmetic::power2::pow2((e1 - 1) as nat) as int;
            vstd::arithmetic::power2::lemma_pow2_pos((e1 - 1) as nat);
            assert(0 <= (f1 + 0x80_0000) * p1) by (nonlinear_arith)
                requires
                    f1 >= 0,
                    p1 > 0,
            ;
            if e1 == e2 {
                assert((f1 + 0x80_0000) * p1 < (f2 + 0x80_0000) * p1) by (nonlinear_arith)
                    requires
                        f1 < f2,
                        p1 > 0,
                ;
            } else {
                vstd::arithmetic::power2::lemma_pow2_adds((e1 - 1) as nat, 1nat);
                vstd::arithmetic::power2::lemma2_to64();
                assert(vstd::arithmetic::power2::pow2(e1 as nat) == 2 * p1);
                if e1 < e2 - 1 {
                    vstd::arithmetic::power2::lemma_pow2_strictly_increases(
                        e1 as nat,
                        (e2 - 1) as nat,
                    );
                }
                assert(2 * p1 <= p2);
                assert((f1 + 0x80_0000) * p1 < 0x80_0000 * p2) by (nonlinear_arith)
                    requires
                        0 <= f1 < 0x80_0000,
                        p1 > 0,
                        2 * p1 <= p2,
                ;
            }
        }
    }
}

/// The numeric order agrees with the total order, except that the two zeros
/// have one value.
pub proof fn lemma_value_follows_rank(a: Weight, b: Weight)
    ensures
        a.value() == b.value() <==> (a.rank() == b.rank() || (a.magnitude() == 0 && b.magnitude()
            == 0)),
        a.rank() < b.rank() ==> a.value() <= b.value(),
        a.rank() > b.rank() ==> a.value() >= b.value(),
        a.rank() == b.rank() <==> a == b,
        a.value() == 0 <==> a.magnitude() == 0,
{
    if a.magnitude() < b.magnitude() {
        lemma_magnitude_value_increases(a.magnitude(), b.magnitude());
    }
    if b.magnitude() < a.magnitude() {
        lemma_magnitude_value_increases(b.magnitude(), a.magnitude());
    }
    if 0 < a.magnitude() {
        lemma_magnitude_value_increases(0, a.magnitude());
    }
    if 0 < b.magnitude() {
        lemma_magnitude_value_increases(0, b.magnitude());
    }
}

/// Comparisons, over the patterns: a NaN compares false with everything; among
/// numbers of one sign the pattern decides, the other way round when it is set;
/// a positive number exceeds a negative one; and the two zeros are equal.
pub proof fn law_comparisons_follow_the_patterns(a: Weight, b: Weight)
    ensures
        a.nan() <==> 0x7f80_0000 < a.bits < 0x8000_0000 || a.bits > 0xff80_0000,
        a.nan() || b.nan() ==> !a.gt(b) && !a.ge(b) && !a.numerically_equal(b),
        !a.nan() && !b.nan() ==> {
            &&& a.bits < 0x8000_0000 && b.bits < 0x8000_0000 ==> (a.gt(b) <==> a.bits > b.bits)
            &&& a.bits >= 0x8000_0000 && b.bits >= 0x8000_0000 ==> (a.gt(b) <==> a.bits < b.bits)
            &&& a.bits < 0x8000_0000 && b.bits >= 0x8000_0000 ==> (a.gt(b) <==> !(a.bits == 0
                && b.bits == 0x8000_0000))
            &&& a.bits >= 0x8000_0000 && b.bits < 0x8000_0000 ==> !a.gt(b)
            &&& a.numerically_equal(b) <==> a.bits == b.bits || ((a.bits == 0 || a.bits
                == 0x8000_0000) && (b.bits == 0 || b.bits == 0x8000_0000))
            &&& a.ge(b) <==> a.gt(b) || a.numerically_equal(b)
        },
{
    lemma_value_follows_rank(a, b);
}

/// The total order, over the patterns: every pattern with a set sign bit stands
/// before every other, and among those with one sign the pattern decides, the
/// other way round when it is set.
pub proof fn law_total_order_follows_the_patterns(a: Weight, b: Weight)
    ensures
        a.bits < 0x8000_0000 && b.bits < 0x8000_0000 ==> (a.rank() < b.rank() <==> a.bits
            < b.bits),
        a.bits >= 0x8000_0000 && b.bits >= 0x8000_0000 ==> (a.rank() < b.rank() <==> a.bits
            > b.bits),
        a.bits >= 0x8000_0000 && b.bits < 0x8000_0000 ==> a.rank() < b.rank(),
        a.rank() == b.rank() <==> a.bits == b.bits,
{
}

/// The number that a pattern stands for: the patterns of the subnormals and of
/// the first normals count up by one, from then on a step of the exponent
/// doubles, and the sign bit negates.
pub proof fn law_value_is_the_number(a: Weight)
    requires
        a.bits < 0x7f80_0000,
    ensures
        a.bits <= 0x0100_0000 ==> a.value() == a.bits,
        0x0080_0000 <= a.bits < 0x7f00_0000 ==> (Weight {
            bits: (a.bits + 0x0080_0000) as u32,
        }).value() == 2 * a.value(),
        (Weight { bits: (a.bits + 0x8000_0000) as u32 }).value() == -a.value(),
{
    vstd::arithmetic::power2::lemma2_to64();
    if a.bits <= 0x0100_0000 {
        let e = a.bits as int / 0x80_0000;
        if e > 0 {
            let p = vstd::arithmetic::power2::pow2((e - 1) as nat);
            let f = a.bits as int % 0x80_0000;
            if e == 1 {
                assert(p == 1);
                assert((f + 0x80_0000) * p == f + 0x80_0000) by (nonlinear_arith)
                    requires
                        p == 1,
                ;
            } else {
                assert(e == 2 && p == 2 && f == 0);
                assert((f + 0x80_0000) * p == 0x0100_0000) by (nonlinear_arith)
                    requires
                        p == 2,
                        f == 0,
                ;
            }
        }
    }
    if 0x0080_0000 <= a.bits < 0x7f00_0000 {
        let m = a.bits as int;
        let e = m / 0x80_0000;
        let f = m % 0x80_0000;
        assert((m + 0x80_0000) / 0x80_0000 == e + 1);
        assert((m + 0x80_0000) % 0x80_0000 == f);
        vstd::arithmetic::power2::lemma_pow2_adds((e - 1) as nat, 1nat);
        let p = vstd::arithmetic::power2::pow2((e - 1) as nat) as int;
        assert((f + 0x80_0000) * (2 * p) == 2 * ((f + 0x80_0000) * p)) by (nonlinear_arith);
        assert(vstd::arithmetic::power2::pow2(e as nat) == 2 * p);
    }
}

/// The greatest weight exceeds or equals every weight that is a number, and it
/// is one of them, or zero when none is above zero.
pub proof fn law_greatest_is_the_maximum(m: Weight, weights: Seq<Weight>)
    requires
        m.is_greatest_of(weights),
    ensures
        forall|j: int| 0 <= j < weights.len() ==> !(#[trigger] weights[j]).gt(m),
        m.bits == 0 || (m.bits < 0x8000_0000 && exists|j: int|
            0 <= j < weights.len() && #[trigger] weights[j] == m),
        m.bits <= 0x7f80_0000,
{
    lemma_value_follows_rank(m, Weight { bits: ZERO_BITS });
}

} // verus!
