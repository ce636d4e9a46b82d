//! Single-precision values, held by their IEEE 754 bit pattern.
use vstd::prelude::*;

verus! {

/// Magnitude of infinity. A larger magnitude names no number.
pub const INFINITY_BITS: u32 = 0x7f80_0000;

/// Weight of the sign bit.
pub const SIGN_BIT: u32 = 0x8000_0000;

/// A single-precision value, named by its bit pattern.
///
/// The library stores, moves, frames and orders such values. It does no arithmetic
/// on them, so every statement about one is a statement about its bits.
#[derive(Clone, Copy, Debug, PartialEq, Eq, Hash, Structural)]
pub struct Scalar {
    pub bits: u32,
}

impl Scalar {
    /// The pattern without its sign bit.
    pub open spec fn magnitude(self) -> int {
        self.bits as int % SIGN_BIT as int
    }

    /// Whether the pattern names no number.
    pub open spec fn not_a_number(self) -> bool {
        self.magnitude() > INFINITY_BITS
    }

    /// A position on a line on which numbers lie in their order, both zeros at 0.
    pub open spec fn position(self) -> int {
        if self.bits < SIGN_BIT {
            self.magnitude()
        } else {
            -self.magnitude()
        }
    }

    /// `self < other` as IEEE 754 orders numbers; false where either is no number.
    pub open spec fn below(self, other: Self) -> bool {
        !self.not_a_number() && !other.not_a_number() && self.position() < other.position()
    }

    /// `self <= other` as IEEE 754 orders numbers; false where either is no number.
    pub open spec fn at_most(self, other: Self) -> bool {
        !self.not_a_number() && !other.not_a_number() && self.position() <= other.position()
    }

    /// The larger of two values. Where one is no number, the other; `other` on a tie.
    pub open spec fn larger(self, other: Self) -> Self {
        if other.not_a_number() || other.below(self) {
            self
        } else {
            other
        }
    }

    /// The exact value of a finite number, in units of the smallest positive one.
    pub open spec fn units(self) -> int {
        let fraction = self.magnitude() % 0x80_0000;
        let exponent = self.magnitude() / 0x80_0000;
        let size = if exponent == 0 {
            fraction
        } else {
            (0x80_0000 + fraction) * vstd::arithmetic::power2::pow2((exponent - 1) as nat)
        };
        if self.bits < SIGN_BIT {
            size
        } else {
            -size
        }
    }

    /// 0.0
    #[verifier::allow_in_spec]
    pub fn zero() -> Self
        returns
            (Scalar { bits: 0 }),
    {
        Scalar { bits: 0 }
    }

    /// 0.5
    #[verifier::allow_in_spec]
    pub fn half() -> Self
        returns
            (Scalar { bits: 0x3f00_0000 }),
    {
        Scalar { bits: 0x3f00_0000 }
    }

    /// 1.0
    #[verifier::allow_in_spec]
    pub fn one() -> Self
        returns
            (Scalar { bits: 0x3f80_0000 }),
    {
        Scalar { bits: 0x3f80_0000 }
    }

    /// 2.0
    #[verifier::allow_in_spec]
    pub fn two() -> Self
        returns
            (Scalar { bits: 0x4000_0000 }),
    {
        Scalar { bits: 0x4000_0000 }
    }

    /// Positive infinity.
    #[verifier::allow_in_spec]
    pub fn infinity() -> Self
        returns
            (Scalar { bits: 0x7f80_0000 }),
    {
        Scalar { bits: 0x7f80_0000 }
    }

    /// Negative infinity.
    #[verifier::allow_in_spec]
    pub fn neg_infinity() -> Self
        returns
            (Scalar { bits: 0xff80_0000 }),
    {
        Scalar { bits: 0xff80_0000 }
    }

    /// The value with the given bit pattern.
    pub fn from_bits(bits: u32) -> (r: Self)
        ensures
            r.bits == bits,
    {
        Scalar { bits }
    }

    /// The bit pattern.
    pub fn to_bits(self) -> (r: u32)
        ensures
            r == self.bits,
    {
        self.bits
    }

    /// Whether the pattern names no number.
    pub fn is_nan(self) -> (r: bool)
        ensures
            r == self.not_a_number(),
    {
        self.bits % SIGN_BIT > INFINITY_BITS
    }

    /// Whether the value is a number and not infinite.
    pub fn is_finite(self) -> (r: bool)
        ensures
            r == (self.magnitude() < INFINITY_BITS),
    {
        self.bits % SIGN_BIT < INFINITY_BITS
    }

    /// The position on the line of numbers.
    pub fn place(self) -> (r: i64)
        ensures
            r == self.position(),
    {
        let magnitude: i64 = (self.bits % SIGN_BIT) as i64;
        if self.bits < SIGN_BIT {
            magnitude
        } else {
            -magnitude
        }
    }

    /// `self < other`.
    pub fn lt(self, other: Self) -> (r: bool)
        ensures
            r == self.below(other),
    {
        !self.is_nan() && !other.is_nan() && self.place() < other.place()
    }

    /// `self <= other`.
    pub fn le(self, other: Self) -> (r: bool)
        ensures
            r == self.at_most(other),
    {
        !self.is_nan() && !other.is_nan() && self.place() <= other.place()
    }

    /// The larger of two values.
    pub fn max(self, other: Self) -> (r: Self)
        ensures
            r == self.larger(other),
    {
        if other.is_nan() || other.lt(self) {
            self
        } else {
            other
        }
    }
}

/// A copy of a list of values.
pub fn copy_scalars(values: &Vec<Scalar>) -> (r: Vec<Scalar>)
    ensures
        r@ == values@,
{
    let mut r: Vec<Scalar> = Vec::with_capacity(values.len());
    let mut i: usize = 0;
    while i < values.len()
        invariant
            i <= values.len(),
            r@ == values@.take(i as int),
        decreases values.len() - i,
    {
        r.push(values[i]);
        i += 1;
        assert(values@.take(i as int) =~= values@.take(i - 1).push(values@[i - 1]));
    }
    assert(values@.take(i as int) =~= values@);
    r
}

/// A list of `len` zeros.
pub fn zeros(len: usize) -> (r: Vec<Scalar>)
    ensures
        r@ == Seq::new(len as nat, |i: int| Scalar::zero()),
{
    let mut r: Vec<Scalar> = Vec::with_capacity(len);
    let mut i: usize = 0;
    while i < len
        invariant
            i <= len,
            r@ == Seq::new(i as nat, |k: int| Scalar::zero()),
        decreases len - i,
    {
        r.push(Scalar::zero());
        i += 1;
        assert(r@ =~= Seq::new(i as nat, |k: int| Scalar::zero()));
    }
    r
}

/// Between two numbers exactly one of `<`, equality of position and `>` holds.
pub proof fn law_order_is_total(a: Scalar, b: Scalar)
    requires
        !a.not_a_number(),
        !b.not_a_number(),
    ensures
        a.below(b) || b.at_most(a),
        !(a.below(b) && b.at_most(a)),
{
}

/// A finite number lies above zero exactly where its exact value does.
pub proof fn lemma_units_sign(s: Scalar)
    requires
        s.magnitude() < INFINITY_BITS,
    ensures
        Scalar::zero().below(s) <==> s.units() > 0,
        s.magnitude() == 0 <==> s.units() == 0,
{
    let fraction = s.magnitude() % 0x80_0000;
    let exponent = s.magnitude() / 0x80_0000;
    if exponent > 0 {
        let scale = vstd::arithmetic::power2::pow2((exponent - 1) as nat) as int;
        vstd::arithmetic::power2::lemma_pow2_pos((exponent - 1) as nat);
        assert((0x80_0000 + fraction) * scale > 0) by (nonlinear_arith)
            requires
                fraction >= 0,
                scale > 0,
        ;
    }
}

/// The order is transitive.
pub proof fn law_order_is_transitive(a: Scalar, b: Scalar, c: Scalar)
    requires
        a.at_most(b),
        b.at_most(c),
    ensures
        a.at_most(c),
        (a.below(b) || b.below(c)) ==> a.below(c),
{
}

/// The exact size of a finite number grows with its magnitude.
proof fn lemma_units_grow(a: int, b: int)
    requires
        0 <= a < b < INFINITY_BITS,
    ensures
        (Scalar { bits: a as u32 }).units() < (Scalar { bits: b as u32 }).units(),
{
    let (fa, ea) = (a % 0x80_0000, a / 0x80_0000);
    let (fb, eb) = (b % 0x80_0000, b / 0x80_0000);
    assert(ea <= eb);
    vstd::arithmetic::power2::lemma2_to64();
    if eb > 0 {
        let high = vstd::arithmetic::power2::pow2((eb - 1) as nat) as int;
        vstd::arithmetic::power2::lemma_pow2_pos((eb - 1) as nat);
        assert((0x80_0000 + fb) * high >= 0x80_0000 * high) by (nonlinear_arith)
            requires
                fb >= 0,
                high > 0,
        ;
        if ea == eb {
            assert((0x80_0000 + fa) * high < (0x80_0000 + fb) * high) by (nonlinear_arith)
                requires
                    fa < fb,
                    high > 0,
            ;
        } else if ea > 0 {
            let low = vstd::arithmetic::power2::pow2((ea - 1) as nat) as int;
            vstd::arithmetic::power2::lemma_pow2_pos((ea - 1) as nat);
            vstd::arithmetic::power2::lemma_pow2_unfold(ea as nat);
            if ea < eb - 1 {
                vstd::arithmetic::power2::lemma_pow2_strictly_increases(ea as nat, (eb - 1) as nat);
            }
            assert((0x80_0000 + fa) * low < 0x80_0000 * high) by (nonlinear_arith)
                requires
                    0 <= fa < 0x80_0000,
                    low > 0,
                    2 * low <= high,
            ;
        } else {
            if eb > 1 {
                vstd::arithmetic::power2::lemma_pow2_strictly_increases(0, (eb - 1) as nat);
            }
            assert(fa < 0x80_0000 * high) by (nonlinear_arith)
                requires
                    fa < 0x80_0000,
                    high >= 1,
            ;
        }
    }
}

/// A pattern with the sign bit set names the negative of the pattern without it.
pub proof fn law_the_sign_bit_negates(a: Scalar)
    requires
        a.bits < 0x8000_0000,
    ensures
        (Scalar { bits: (a.bits + 0x8000_0000) as u32 }).units() == -a.units(),
        (Scalar { bits: (a.bits + 0x8000_0000) as u32 }).position() == -a.position(),
{
}

/// Finite numbers are ordered as their exact values are.
pub proof fn law_order_is_by_value(a: Scalar, b: Scalar)
    requires
        a.bits % 0x8000_0000 < 0x7f80_0000,
        b.bits % 0x8000_0000 < 0x7f80_0000,
    ensures
        a.below(b) <==> a.units() < b.units(),
        a.at_most(b) <==> a.units() <= b.units(),
{
    let (ma, mb) = (a.magnitude(), b.magnitude());
    lemma_units_sign(a);
    lemma_units_sign(b);
    if ma < mb {
        lemma_units_grow(ma, mb);
    } else if mb < ma {
        lemma_units_grow(mb, ma);
    }
    let (sa, sb) = (Scalar { bits: ma as u32 }, Scalar { bits: mb as u32 });
    lemma_units_sign(sa);
    lemma_units_sign(sb);
    assert(a.bits < 0x8000_0000 ==> a.units() == sa.units());
    assert(a.bits >= 0x8000_0000 ==> a.units() == -sa.units());
    assert(b.bits < 0x8000_0000 ==> b.units() == sb.units());
    assert(b.bits >= 0x8000_0000 ==> b.units() == -sb.units());
    assert(sa.units() >= 0 && sb.units() >= 0);
}

/// What is no number is neither below nor above anything, not even itself. The infinities lie
/// beyond all finite numbers.
pub proof fn law_the_ends_of_the_order(a: Scalar, b: Scalar)
    ensures
        a.bits % 0x8000_0000 > 0x7f80_0000 ==> !a.below(b) && !b.below(a) && !a.at_most(b)
            && !b.at_most(a),
        a.bits % 0x8000_0000 < 0x7f80_0000 ==> a.below(Scalar::infinity())
            && Scalar::neg_infinity().below(a),
        Scalar::neg_infinity().below(Scalar::infinity()),
{
}

proof fn lemma_power_of_two(s: Scalar, exponent: int)
    requires
        0 < exponent < 255,
        s.bits == exponent * 0x80_0000,
    ensures
        s.units() == 0x80_0000 * vstd::arithmetic::power2::pow2((exponent - 1) as nat),
{
    let fraction = s.magnitude() % 0x80_0000;
    let scale = vstd::arithmetic::power2::pow2((exponent - 1) as nat) as int;
    assert(s.magnitude() / 0x80_0000 == exponent);
    assert((0x80_0000 + fraction) * scale == 0x80_0000 * scale) by (nonlinear_arith)
        requires
            fraction == 0,
    ;
}

/// The named values are what their names say: two is twice one, and one twice a half, of which
/// 2^148 units make one.
pub proof fn law_named_values()
    ensures
        Scalar::zero().units() == 0,
        Scalar::half().units() == vstd::arithmetic::power2::pow2(148),
        Scalar::one().units() == 2 * Scalar::half().units(),
        Scalar::two().units() == 2 * Scalar::one().units(),
{
    vstd::arithmetic::power2::lemma2_to64();
    vstd::arithmetic::power2::lemma_pow2_adds(23, 125);
    vstd::arithmetic::power2::lemma_pow2_unfold(126);
    vstd::arithmetic::power2::lemma_pow2_unfold(127);
    lemma_power_of_two(Scalar::half(), 126);
    lemma_power_of_two(Scalar::one(), 127);
    lemma_power_of_two(Scalar::two(), 128);
    assert(0x80_0000 * vstd::arithmetic::power2::pow2(125) == vstd::arithmetic::power2::pow2(148));
}

/// The larger of two values is one of them, and neither lies above it. What is no number gives
/// way to what is one.
pub proof fn law_the_larger_value(a: Scalar, b: Scalar)
    ensures
        a.larger(b) == a || a.larger(b) == b,
        !a.larger(b).below(a) && !a.larger(b).below(b),
        b.bits % 0x8000_0000 > 0x7f80_0000 ==> a.larger(b) == a,
        a.bits % 0x8000_0000 > 0x7f80_0000 ==> a.larger(b) == b || b.bits % 0x8000_0000
            > 0x7f80_0000,
        a.below(b) ==> a.larger(b) == b,
        b.below(a) ==> a.larger(b) == a,
{
}


} // verus!
