//! Floating-point numbers by their bit patterns.
//!
//! The library compares, orders and checks such numbers, and leaves arithmetic on them to others.
//! In the IEEE layout the sign is the highest bit, and of two numbers with the same sign the one
//! with the larger remaining bits is further from zero; what lies above infinity is no number.

use vstd::prelude::*;

verus! {

/// A 32-bit floating-point number.
#[derive(Clone, Copy, Debug, PartialEq, Eq, Structural)]
pub struct Single {
    pub bits: u32,
}

impl Single {
    /// The bits without the sign.
    pub open spec fn magnitude(self) -> int {
        self.bits as int % 0x8000_0000
    }

    pub open spec fn negative(self) -> bool {
        self.bits >= 0x8000_0000
    }

    /// Neither infinite nor no number.
    pub open spec fn finite(self) -> bool {
        self.magnitude() < 0x7f80_0000
    }

    /// No number.
    pub open spec fn nan(self) -> bool {
        self.magnitude() > 0x7f80_0000
    }

    /// Where the number lies on the number line; both zeros lie at the same place.
    pub open spec fn rank(self) -> int {
        if self.negative() {
            -self.magnitude()
        } else {
            self.magnitude()
        }
    }

    /// Where the number lies in the order in which even the zeros and what is no number have a
    /// place.
    pub open spec fn total_rank(self) -> int {
        if self.negative() {
            -self.magnitude() - 1
        } else {
            self.magnitude()
        }
    }

    /// The comparison `self < other`.
    pub open spec fn lt(self, other: Single) -> bool {
        !self.nan() && !other.nan() && self.rank() < other.rank()
    }

    /// The comparison `self <= other`.
    pub open spec fn le(self, other: Single) -> bool {
        !self.nan() && !other.nan() && self.rank() <= other.rank()
    }

    pub fn from_bits(bits: u32) -> (r: Single)
        ensures
            r.bits == bits,
    {
        Single { bits }
    }

    pub fn to_bits(self) -> (r: u32)
        ensures
            r == self.bits,
    {
        self.bits
    }

    pub fn is_finite(self) -> (r: bool)
        ensures
            r == self.finite(),
    {
        self.bits % 0x8000_0000 < 0x7f80_0000
    }

    pub fn is_nan(self) -> (r: bool)
        ensures
            r == self.nan(),
    {
        self.bits % 0x8000_0000 > 0x7f80_0000
    }

    /// Where the number lies on the number line.
    fn place(self) -> (r: i64)
        ensures
            r == self.rank(),
    {
        let magnitude: i64 = (self.bits % 0x8000_0000) as i64;
        if self.bits >= 0x8000_0000 {
            -magnitude
        } else {
            magnitude
        }
    }

    /// Whether the number is smaller than another.
    pub fn less(self, other: Single) -> (r: bool)
        ensures
            r == self.lt(other),
    {
        !self.is_nan() && !other.is_nan() && self.place() < other.place()
    }

    /// Whether the number is smaller than another or equal to it.
    pub fn at_most(self, other: Single) -> (r: bool)
        ensures
            r == self.le(other),
    {
        !self.is_nan() && !other.is_nan() && self.place() <= other.place()
    }

    /// Whether the number comes before another in the order that has a place for everything.
    pub fn total_less(self, other: Single) -> (r: bool)
        ensures
            r == (self.total_rank() < other.total_rank()),
    {
        let a: i64 = if self.bits >= 0x8000_0000 { self.place() - 1 } else { self.place() };
        let b: i64 = if other.bits >= 0x8000_0000 { other.place() - 1 } else { other.place() };
        a < b
    }

    /// The number moved into the unit interval; what is no number stays.
    pub open spec fn unit_clamped(self) -> Single {
        if self.lt(Single { bits: ZERO }) {
            Single { bits: ZERO }
        } else if (Single { bits: ONE }).lt(self) {
            Single { bits: ONE }
        } else {
            self
        }
    }

    pub fn clamp_unit(self) -> (r: Single)
        ensures
            r == self.unit_clamped(),
            self.bits % 0x8000_0000 > 0x7f80_0000 ==> r == self,
            !self.nan() ==> (Single { bits: 0 }).le(r) && r.le(Single { bits: 0x3f80_0000 }),
            (Single { bits: 0 }).le(self) && self.le(Single { bits: 0x3f80_0000 }) ==> r == self,
            self.lt(Single { bits: 0 }) ==> r.bits == 0,
            (Single { bits: 0x3f80_0000 }).lt(self) ==> r.bits == 0x3f80_0000,
    {
        if self.less(Single { bits: ZERO }) {
            Single { bits: ZERO }
        } else if (Single { bits: ONE }).less(self) {
            Single { bits: ONE }
        } else {
            self
        }
    }
}

/// The bits of zero.
pub const ZERO: u32 = 0;

/// The bits of one.
pub const ONE: u32 = 0x3f80_0000;

/// The bits of infinity.
pub const INFINITY: u32 = 0x7f80_0000;

/// The bits of negative infinity.
pub const NEG_INFINITY: u32 = 0xff80_0000;

/// Numbers have the same place in the total order only if they are the same.
pub proof fn law_total_rank_separates(a: Single, b: Single)
    ensures
        (a.total_rank() == b.total_rank()) == (a == b),
{
}

/// On numbers the total order refines the comparison.
pub proof fn law_total_order_refines_comparison(a: Single, b: Single)
    requires
        a.lt(b),
    ensures
        a.total_rank() < b.total_rank(),
{
}

/// Single numbers without a sign are ordered as their bits, those with one the other way round, and
/// those with a sign come before those without; the two zeros are equal, and what is no number
/// compares with nothing.
pub proof fn law_single_numbers_go_by_their_bits(a: Single, b: Single)
    ensures
        a.nan() <==> 0x7f80_0000 < a.bits < 0x8000_0000 || a.bits > 0x7f80_0000 + 0x8000_0000,
        a.finite() <==> a.bits < 0x7f80_0000 || 0x8000_0000 <= a.bits < 0x7f80_0000 + 0x8000_0000,
        a.nan() || b.nan() ==> !a.lt(b),
        !a.nan() && !b.nan() && a.bits < 0x8000_0000 && b.bits < 0x8000_0000 ==> (a.lt(b) <==> a.bits < b.bits),
        !a.nan() && !b.nan() && a.bits >= 0x8000_0000 && b.bits >= 0x8000_0000 ==> (a.lt(b) <==> a.bits
            > b.bits),
        !a.nan() && !b.nan() && a.bits >= 0x8000_0000 && b.bits < 0x8000_0000 ==> (a.lt(b) <==> a.bits != 0x8000_0000
            || b.bits != 0),
        a.bits < 0x8000_0000 && b.bits >= 0x8000_0000 ==> !a.lt(b),
        a.le(b) <==> !a.nan() && !b.nan() && !b.lt(a),
{
}

/// In the total order everything with a sign comes before everything without one; without a sign
/// larger bits come later, and with one earlier.
pub proof fn law_total_order_goes_by_bits(a: Single, b: Single)
    ensures
        a.bits < 0x8000_0000 && b.bits < 0x8000_0000 ==> (a.total_rank() < b.total_rank()
            <==> a.bits < b.bits),
        a.bits >= 0x8000_0000 && b.bits >= 0x8000_0000 ==> (a.total_rank() < b.total_rank()
            <==> a.bits > b.bits),
        a.bits >= 0x8000_0000 && b.bits < 0x8000_0000 ==> a.total_rank() < b.total_rank(),
{
}

/// A 64-bit floating-point number.
#[derive(Clone, Copy, Debug, PartialEq, Eq, Structural)]
pub struct Double {
    pub bits: u64,
}

impl Double {
    /// The bits without the sign.
    pub open spec fn magnitude(self) -> int {
        self.bits as int % 0x8000_0000_0000_0000
    }

    pub open spec fn negative(self) -> bool {
        self.bits >= 0x8000_0000_0000_0000
    }

    /// Neither infinite nor no number.
    pub open spec fn finite(self) -> bool {
        self.magnitude() < 0x7ff0_0000_0000_0000
    }

    /// No number.
    pub open spec fn nan(self) -> bool {
        self.magnitude() > 0x7ff0_0000_0000_0000
    }

    /// Where the number lies on the number line; both zeros lie at the same place.
    pub open spec fn rank(self) -> int {
        if self.negative() {
            -self.magnitude()
        } else {
            self.magnitude()
        }
    }

    /// The comparison `self < other`.
    pub open spec fn lt(self, other: Double) -> bool {
        !self.nan() && !other.nan() && self.rank() < other.rank()
    }

    /// A finite number above zero.
    pub open spec fn positive_finite(self) -> bool {
        self.finite() && self.rank() > 0
    }

    pub fn from_bits(bits: u64) -> (r: Double)
        ensures
            r.bits == bits,
    {
        Double { bits }
    }

    pub fn to_bits(self) -> (r: u64)
        ensures
            r == self.bits,
    {
        self.bits
    }

    pub fn is_nan(self) -> (r: bool)
        ensures
            r == self.nan(),
    {
        self.bits % 0x8000_0000_0000_0000 > 0x7ff0_0000_0000_0000
    }

    /// Where the number lies on the number line.
    fn place(self) -> (r: i128)
        ensures
            r == self.rank(),
    {
        let magnitude: i128 = (self.bits % 0x8000_0000_0000_0000) as i128;
        if self.bits >= 0x8000_0000_0000_0000 {
            -magnitude
        } else {
            magnitude
        }
    }

    /// Whether the number is smaller than another.
    pub fn less(self, other: Double) -> (r: bool)
        ensures
            r == self.lt(other),
    {
        !self.is_nan() && !other.is_nan() && self.place() < other.place()
    }

    /// Whether the number is finite and above zero.
    pub fn is_positive_finite(self) -> (r: bool)
        ensures
            r == self.positive_finite(),
    {
        let magnitude: u64 = self.bits % 0x8000_0000_0000_0000;
        magnitude < 0x7ff0_0000_0000_0000 && self.place() > 0
    }
}

/// Double numbers without a sign are ordered as their bits, those with one the other way round, and
/// those with a sign come before those without; the two zeros are equal, and what is no number
/// compares with nothing.
pub proof fn law_double_numbers_go_by_their_bits(a: Double, b: Double)
    ensures
        a.nan() <==> 0x7ff0_0000_0000_0000 < a.bits < 0x8000_0000_0000_0000 || a.bits > 0x7ff0_0000_0000_0000 + 0x8000_0000_0000_0000,
        a.finite() <==> a.bits < 0x7ff0_0000_0000_0000 || 0x8000_0000_0000_0000 <= a.bits < 0x7ff0_0000_0000_0000 + 0x8000_0000_0000_0000,
        a.nan() || b.nan() ==> !a.lt(b),
        !a.nan() && !b.nan() && a.bits < 0x8000_0000_0000_0000 && b.bits < 0x8000_0000_0000_0000 ==> (a.lt(b) <==> a.bits < b.bits),
        !a.nan() && !b.nan() && a.bits >= 0x8000_0000_0000_0000 && b.bits >= 0x8000_0000_0000_0000 ==> (a.lt(b) <==> a.bits
            > b.bits),
        !a.nan() && !b.nan() && a.bits >= 0x8000_0000_0000_0000 && b.bits < 0x8000_0000_0000_0000 ==> (a.lt(b) <==> a.bits != 0x8000_0000_0000_0000
            || b.bits != 0),
        a.bits < 0x8000_0000_0000_0000 && b.bits >= 0x8000_0000_0000_0000 ==> !a.lt(b),
        a.positive_finite() <==> 0 < a.bits < 0x7ff0_0000_0000_0000,
{
}

} // verus!
