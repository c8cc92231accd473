//! The exact scalar type of the engine.
//!
//! Board geometry must be compared exactly: a selection edge that merely
//! touches a piece must never be mistaken for an overlapping one, so
//! floating point is ruled out.  Every coordinate the game can reach is a
//! multiple of one sixth (the starting grid) halved some number of times,
//! so the scalar holds an integer count of fixed sub-units: a [`Frac`]
//! with `units = u` denotes the rational number `u / SCALE`, where
//! [`SCALE`] is `3 * 2^20`.  That denominator holds the whole starting
//! grid of sixths and nineteen further generations of halving exactly;
//! a value that the representation cannot hold exactly is refused by
//! [`Frac::new`] rather than rounded, so precision is never lost
//! silently.

use vstd::prelude::*;

verus! {

/// Number of sub-units in one board side: `3 * 2^20`.
pub const SCALE: i64 = 3145728;

/// Magnitude cap on the unit count of any scalar accepted as input.
///
/// `2^60`: small enough that sums and differences of two in-range values
/// (and of the corner coordinates derived from them) always fit in
/// `i64`, vast enough that every coordinate of interest — the unit board
/// spans only `SCALE` units — is available.
pub const RANGE: i64 = 0x1000_0000_0000_0000;

/// An exact rational scalar: the value `units / SCALE`.
#[derive(Clone, Copy, PartialEq, Eq, Structural, Debug)]
pub struct Frac {
    pub units: i64,
}

impl View for Frac {
    type V = int;

    /// A scalar is viewed as its unit count; the denominator `SCALE`
    /// is a fixed constant of the whole engine.
    open spec fn view(&self) -> int {
        self.units as int
    }
}

/// Whether a scalar is small enough to be accepted as an input
/// coordinate (see [`RANGE`]).
pub open spec fn scalar_in_range(f: Frac) -> bool {
    -RANGE <= f@ <= RANGE
}

impl Frac {
    /// Builds the scalar `num / den` exactly.
    ///
    /// Returns `None` when `den` is zero, when `num / den` is not a
    /// multiple of `1 / SCALE`, or when the unit count would exceed
    /// [`RANGE`]; the value is never rounded.
    pub fn new(num: i64, den: i64) -> (r: Option<Frac>)
        ensures
            match r {
                Some(f) => f@ * den == num * SCALE && scalar_in_range(f),
                None => den == 0
                    || (forall|q: int| #[trigger] (q * den) == num * SCALE ==> !(-RANGE <= q <= RANGE)),
            },
    {
        if den == 0 {
            return None;
        }
        let neg: bool = (num < 0) != (den < 0);
        let na: u128 = if num < 0 {
            (-(num as i128)) as u128
        } else {
            num as u128
        };
        let da: u128 = if den < 0 {
            (-(den as i128)) as u128
        } else {
            den as u128
        };
        let m: u128 = na * (SCALE as u128);
        if m % da != 0 {
            proof {
                lemma_no_exact_quotient(num as int, den as int);
            }
            return None;
        }
        let q: u128 = m / da;
        proof {
            vstd::arithmetic::div_mod::lemma_fundamental_div_mod(m as int, da as int);
        }
        if q > RANGE as u128 {
            proof {
                lemma_quotient_unique(num as int, den as int, q as int);
            }
            return None;
        }
        let units: i64 = if neg { -(q as i64) } else { q as i64 };
        proof {
            assert(m as int == da as int * (m as int / da as int) + (m as int % da as int));
            assert(m as int % da as int == 0);
            assert(q as int == m as int / da as int);
            assert(da as int * (q as int) == m as int);
            assert(q * da == m);
            assert(m == na * SCALE);
            assert(units * den == num * SCALE) by (nonlinear_arith)
                requires
                    q * da == na * SCALE,
                    na == vstd::math::abs(num as int),
                    da == vstd::math::abs(den as int),
                    den != 0,
                    neg == ((num < 0) != (den < 0)),
                    units == (if neg { -(q as int) } else { q as int }),
                    0 <= q <= RANGE,
            {}
        }
        Some(Frac { units })
    }

    /// Exact sum.
    pub fn add(self, other: Frac) -> (r: Frac)
        requires
            i64::MIN <= self@ + other@ <= i64::MAX,
        ensures
            r@ == self@ + other@,
    {
        Frac { units: self.units + other.units }
    }

    /// Exact difference.
    pub fn sub(self, other: Frac) -> (r: Frac)
        requires
            i64::MIN <= self@ - other@ <= i64::MAX,
        ensures
            r@ == self@ - other@,
    {
        Frac { units: self.units - other.units }
    }

    /// Exact order test, `self <= other`.
    pub fn le(self, other: Frac) -> (r: bool)
        ensures
            r == (self@ <= other@),
    {
        self.units <= other.units
    }

    /// Exact order test, `self < other`.
    pub fn lt(self, other: Frac) -> (r: bool)
        ensures
            r == (self@ < other@),
    {
        self.units < other.units
    }
}

/// A product of integers equals, in magnitude, the product of their
/// magnitudes.
proof fn lemma_abs_mul(p: int, den: int)
    ensures
        vstd::math::abs(p * den) == vstd::math::abs(p) * vstd::math::abs(den),
{
    assert(vstd::math::abs(p * den) == vstd::math::abs(p) * vstd::math::abs(den))
        by (nonlinear_arith);
}

/// If the magnitude of `num * SCALE` is not divisible by that of
/// `den`, no integer at all satisfies `q * den == num * SCALE`.
proof fn lemma_no_exact_quotient(num: int, den: int)
    requires
        den != 0,
        (vstd::math::abs(num) * SCALE) % (vstd::math::abs(den) as int) != 0,
    ensures
        forall|q: int| #[trigger] (q * den) == num * SCALE ==> !(-RANGE <= q <= RANGE),
{
    let na = vstd::math::abs(num) as int;
    let da = vstd::math::abs(den) as int;
    assert forall|q: int| #[trigger] (q * den) == num * SCALE implies !(-RANGE <= q <= RANGE) by {
        lemma_abs_mul(q, den);
        lemma_abs_mul(num, SCALE as int);
        assert((vstd::math::abs(q) as int) * da == na * SCALE);
        vstd::arithmetic::div_mod::lemma_mod_multiples_basic(vstd::math::abs(q) as int, da);
        assert((na * SCALE) % da == 0);
        assert(false);
    }
}

/// An exact quotient is unique in magnitude, so a too-large one rules
/// out all candidates within range.
proof fn lemma_quotient_unique(num: int, den: int, q0: int)
    requires
        den != 0,
        q0 * (vstd::math::abs(den) as int) == vstd::math::abs(num) * SCALE,
        q0 > RANGE,
    ensures
        forall|p: int| #[trigger] (p * den) == num * SCALE ==> !(-RANGE <= p <= RANGE),
{
    let na = vstd::math::abs(num) as int;
    let da = vstd::math::abs(den) as int;
    assert forall|p: int| #[trigger] (p * den) == num * SCALE implies !(-RANGE <= p <= RANGE) by {
        lemma_abs_mul(p, den);
        lemma_abs_mul(num, SCALE as int);
        assert((vstd::math::abs(p) as int) * da == na * SCALE);
        assert(vstd::math::abs(p) as int == q0) by (nonlinear_arith)
            requires
                (vstd::math::abs(p) as int) * da == na * SCALE,
                q0 * da == na * SCALE,
                da >= 1,
        {}
        assert(vstd::math::abs(p) as int > RANGE);
    }
}

} // verus!
