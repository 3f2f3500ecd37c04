//! IEEE 754 binary64 numbers, held by their bit patterns.
//!
//! Probabilities, costs and scores pass through this crate as bit patterns. Comparing two of
//! them needs no arithmetic: everything here is decided on the bits, and stated over the
//! numbers that the bits stand for.
use vstd::arithmetic::power2::*;
use vstd::prelude::*;

use crate::order::strict_total;
use crate::sorted_map::Copied;

verus! {

/// A binary64 number. Equality of this type is equality of the bits: it tells
/// the two zeros apart and takes a NaN to equal itself.
#[derive(Clone, Copy, PartialEq, Eq, Structural, Debug)]
pub struct Binary64 {
    pub bits: u64,
}

impl View for Binary64 {
    type V = Binary64;

    open spec fn view(&self) -> Binary64 {
        *self
    }
}

impl Copied for Binary64 {
    fn copied(&self) -> (r: Self) {
        *self
    }
}

pub const ONE_BITS: u64 = 0x3ff0_0000_0000_0000;

pub const HALF_BITS: u64 = 0x3fe0_0000_0000_0000;

pub const INFINITY_BITS: u64 = 0x7ff0_0000_0000_0000;

pub const SIGN_BIT: u64 = 0x8000_0000_0000_0000;

/// What the low 63 bits stand for, counted in units of the least positive
/// number (two to the power of minus 1074). The pattern of infinity gets the
/// count that continues the scale, which is above that of every finite number.
pub open spec fn magnitude(low: nat) -> nat {
    let exponent = low / 0x10_0000_0000_0000;
    let fraction = low % 0x10_0000_0000_0000;
    if exponent == 0 {
        fraction
    } else {
        (0x10_0000_0000_0000 + fraction) * pow2((exponent - 1) as nat)
    }
}

impl Binary64 {
    pub open spec fn negative(self) -> bool {
        self.bits >= SIGN_BIT
    }

    /// The bits without the sign.
    pub open spec fn low(self) -> nat {
        if self.bits >= SIGN_BIT {
            (self.bits - SIGN_BIT) as nat
        } else {
            self.bits as nat
        }
    }

    pub open spec fn is_nan(self) -> bool {
        self.low() > INFINITY_BITS
    }

    /// The number that the bits stand for, in units of the least positive number.
    pub open spec fn units(self) -> int {
        if self.negative() {
            -(magnitude(self.low()) as int)
        } else {
            magnitude(self.low()) as int
        }
    }

    /// `self < other` as numbers; never where either is a NaN.
    pub open spec fn below(self, other: Binary64) -> bool {
        !self.is_nan() && !other.is_nan() && self.units() < other.units()
    }

    /// `self <= other` as numbers; never where either is a NaN.
    pub open spec fn at_most(self, other: Binary64) -> bool {
        !self.is_nan() && !other.is_nan() && self.units() <= other.units()
    }

    /// The place in the total order of all bit patterns: negative NaNs first,
    /// then the numbers by size with `-0` before `+0`, then positive NaNs.
    pub open spec fn place(self) -> int {
        if self.negative() {
            -1 - self.low()
        } else {
            self.low() as int
        }
    }
}

pub open spec fn zero() -> Binary64 {
    Binary64 { bits: 0 }
}

pub open spec fn one() -> Binary64 {
    Binary64 { bits: ONE_BITS }
}

pub open spec fn half() -> Binary64 {
    Binary64 { bits: HALF_BITS }
}

pub open spec fn infinity() -> Binary64 {
    Binary64 { bits: INFINITY_BITS }
}

/// The total order of all bit patterns as a relation.
pub open spec fn place_lt() -> spec_fn(Binary64, Binary64) -> bool {
    |a: Binary64, b: Binary64| a.place() < b.place()
}

proof fn lemma_magnitude_monotone(a: nat, b: nat)
    requires
        a < b,
    ensures
        magnitude(a) < magnitude(b),
{
    let h: nat = 0x10_0000_0000_0000;
    let ea = a / h;
    let eb = b / h;
    let fa = a % h;
    let fb = b % h;
    if ea == eb {
        assert(fa < fb);
        if ea > 0 {
            let p = pow2((ea - 1) as nat);
            lemma_pow2_pos((ea - 1) as nat);
            assert((h + fa) * p < (h + fb) * p) by (nonlinear_arith)
                requires
                    fa < fb,
                    p > 0,
            ;
        }
    } else {
        assert(ea < eb);
        let q = pow2((eb - 1) as nat);
        lemma_pow2_pos((eb - 1) as nat);
        assert(magnitude(b) >= h * q) by {
            assert((h + fb) * q >= h * q) by (nonlinear_arith)
                requires
                    fb >= 0,
            ;
        }
        if ea == 0 {
            assert(h * q >= h) by (nonlinear_arith)
                requires
                    q >= 1,
            ;
        } else {
            let p = pow2((ea - 1) as nat);
            lemma_pow2_pos((ea - 1) as nat);
            lemma_pow2_unfold(ea);
            if ea < eb - 1 {
                lemma_pow2_strictly_increases(ea, (eb - 1) as nat);
            }
            assert(2 * p <= q);
            assert((h + fa) * p < h * q) by (nonlinear_arith)
                requires
                    fa < h,
                    2 * p <= q,
                    p > 0,
            ;
        }
    }
}

/// Magnitudes stand to each other as the low bits do.
pub proof fn lemma_magnitude_order(a: nat, b: nat)
    ensures
        (magnitude(a) < magnitude(b)) == (a < b),
        (magnitude(a) == magnitude(b)) == (a == b),
{
    if a < b {
        lemma_magnitude_monotone(a, b);
    } else if b < a {
        lemma_magnitude_monotone(b, a);
    }
}

/// Zero is no units, one is two to the power of 1074, a half is half of that.
pub proof fn constants()
    ensures
        !zero().is_nan(),
        !one().is_nan(),
        !half().is_nan(),
        !infinity().is_nan(),
        zero().units() == 0,
        one().units() == pow2(1074),
        half().units() == pow2(1073),
{
    lemma2_to64();
    lemma2_to64_rest();
    lemma_pow2_adds(52, 1022);
    lemma_pow2_adds(52, 1021);
    assert(ONE_BITS as nat / 0x10_0000_0000_0000 == 1023);
    assert(ONE_BITS as nat % 0x10_0000_0000_0000 == 0);
    assert(HALF_BITS as nat / 0x10_0000_0000_0000 == 1022);
    assert(HALF_BITS as nat % 0x10_0000_0000_0000 == 0);
}

/// The bit patterns are totally ordered by place.
pub proof fn places_are_total()
    ensures
        strict_total(place_lt()),
{
    let lt = place_lt();
    assert forall|a: Binary64, b: Binary64| a == b || #[trigger] lt(a, b) || lt(b, a) by {
        if a.place() == b.place() {
            assert(a.bits == b.bits);
        }
    }
}

/// Among numbers, the smaller comes first in the total order.
pub proof fn place_follows_size(a: Binary64, b: Binary64)
    requires
        a.below(b),
    ensures
        a.place() < b.place(),
{
    lemma_magnitude_order(a.low(), b.low());
    lemma_magnitude_order(0, a.low());
    lemma_magnitude_order(0, b.low());
    assert(magnitude(0) == 0);
}

/// Numbers are totally ordered by size, up to the two zeros.
pub proof fn numbers_are_ordered(a: Binary64, b: Binary64, c: Binary64)
    ensures
        !a.below(a),
        a.below(b) && b.below(c) ==> a.below(c),
        a.is_nan() || b.is_nan() || a.below(b) || b.below(a) || a.units() == b.units(),
{
}

impl Binary64 {
    fn key(self) -> (r: i64)
        requires
            !self.is_nan(),
        ensures
            r == if self.negative() {
                -(self.low() as int)
            } else {
                self.low() as int
            },
    {
        if self.bits >= SIGN_BIT {
            -((self.bits - SIGN_BIT) as i64)
        } else {
            self.bits as i64
        }
    }

    /// Whether this is a NaN.
    pub fn nan(self) -> (r: bool)
        ensures
            r == self.is_nan(),
    {
        if self.bits >= SIGN_BIT {
            self.bits - SIGN_BIT > INFINITY_BITS
        } else {
            self.bits > INFINITY_BITS
        }
    }

    /// `self < other` as numbers.
    pub fn lt(self, other: Binary64) -> (r: bool)
        ensures
            r == self.below(other),
    {
        proof {
            lemma_magnitude_order(self.low(), other.low());
            lemma_magnitude_order(other.low(), self.low());
            lemma_magnitude_order(0, self.low());
            lemma_magnitude_order(0, other.low());
            assert(magnitude(0) == 0);
        }
        !self.nan() && !other.nan() && self.key() < other.key()
    }

    /// `self >= other` as numbers.
    pub fn ge(self, other: Binary64) -> (r: bool)
        ensures
            r == other.at_most(self),
    {
        !self.nan() && !other.nan() && !self.lt(other)
    }

    /// Whether this comes before `other` in the total order of all bit patterns.
    pub fn total_lt(self, other: Binary64) -> (r: bool)
        ensures
            r == (self.place() < other.place()),
    {
        let a_neg = self.bits >= SIGN_BIT;
        let b_neg = other.bits >= SIGN_BIT;
        if a_neg && b_neg {
            self.bits > other.bits
        } else if a_neg {
            true
        } else if b_neg {
            false
        } else {
            self.bits < other.bits
        }
    }

    /// What is below zero becomes zero, what is above one becomes one; the rest
    /// stays, a NaN too.
    pub open spec fn clamped(self) -> Binary64 {
        if self.below(zero()) {
            zero()
        } else if one().below(self) {
            one()
        } else {
            self
        }
    }

    pub fn clamp01(self) -> (r: Binary64)
        ensures
            r == self.clamped(),
    {
        if self.lt(Binary64 { bits: 0 }) {
            Binary64 { bits: 0 }
        } else if (Binary64 { bits: ONE_BITS }).lt(self) {
            Binary64 { bits: ONE_BITS }
        } else {
            self
        }
    }
}

/// Clamping gives a number from zero to one, unless it was given a NaN.
pub proof fn clamped_is_a_probability(p: Binary64)
    requires
        !p.is_nan(),
    ensures
        0 <= p.clamped().units() <= pow2(1074),
        0 <= p.units() <= pow2(1074) ==> p.clamped() == p,
        p.clamped().clamped() == p.clamped(),
{
    constants();
    lemma_pow2_pos(1074);
}

// ---------------------------------------------------------------------------
// The greatest of several
// ---------------------------------------------------------------------------

/// The place of the greatest of the first `k` numbers: each number takes the
/// place of the one kept so far unless it is below it, so the last of several
/// greatest is kept.
pub open spec fn greatest(ps: Seq<Binary64>, k: nat) -> int
    decreases k,
{
    if k <= 1 {
        0
    } else {
        let kept = greatest(ps, (k - 1) as nat);
        if ps[k - 1].below(ps[kept]) {
            kept
        } else {
            k - 1
        }
    }
}

/// The place of the greatest is one of the places.
pub proof fn lemma_greatest_place(ps: Seq<Binary64>, k: nat)
    requires
        0 < k <= ps.len(),
    ensures
        0 <= greatest(ps, k) < k,
    decreases k,
{
    if k > 1 {
        lemma_greatest_place(ps, (k - 1) as nat);
    }
}

/// Where no number is a NaN, nothing exceeds the greatest, and what comes after it is below it.
pub proof fn greatest_is_last_maximum(ps: Seq<Binary64>, k: nat)
    requires
        0 < k <= ps.len(),
        forall|i: int| 0 <= i < k ==> !(#[trigger] ps[i]).is_nan(),
    ensures
        0 <= greatest(ps, k) < k,
        forall|i: int| 0 <= i < k ==> (#[trigger] ps[i]).at_most(ps[greatest(ps, k)]),
        forall|i: int| greatest(ps, k) < i < k ==> (#[trigger] ps[i]).below(ps[greatest(ps, k)]),
    decreases k,
{
    if k > 1 {
        greatest_is_last_maximum(ps, (k - 1) as nat);
    }
}

/// The place of the greatest number, or zero where there is none.
pub fn greatest_of(ps: &Vec<Binary64>) -> (r: usize)
    ensures
        r == greatest(ps@, ps@.len()),
        ps@.len() > 0 ==> r < ps@.len(),
{
    let n = ps.len();
    let mut kept: usize = 0;
    let mut k: usize = 1;
    while k < n
        invariant
            1 <= k,
            k <= n || n == 0,
            n == ps@.len(),
            n > 0 ==> kept < n,
            n > 0 ==> kept == greatest(ps@, k as nat),
            n == 0 ==> kept == 0,
        decreases n - k,
    {
        if !ps[k].lt(ps[kept]) {
            kept = k;
        }
        k += 1;
    }
    kept
}

// ---------------------------------------------------------------------------
// Laws
// ---------------------------------------------------------------------------

/// Numbers compare by their bits: without a sign as the patterns do, with one
/// the other way round, and a negative number is below one that is not, but
/// for the two zeros. A NaN is any pattern beyond that of infinity, and nothing
/// is above infinity.
pub proof fn numbers_compare_by_bits(a: Binary64, b: Binary64)
    ensures
        a.is_nan() <==> a.bits % 0x8000_0000_0000_0000 > 0x7ff0_0000_0000_0000,
        a.is_nan() || b.is_nan() ==> !a.below(b) && !a.at_most(b),
        !a.is_nan() && !b.is_nan() ==> {
            &&& a.bits < 0x8000_0000_0000_0000 && b.bits < 0x8000_0000_0000_0000 ==> (a.below(b) <==> a.bits < b.bits)
            &&& a.bits >= 0x8000_0000_0000_0000 && b.bits >= 0x8000_0000_0000_0000 ==> (a.below(b) <==> a.bits > b.bits)
            &&& a.bits >= 0x8000_0000_0000_0000 && b.bits < 0x8000_0000_0000_0000 ==> (a.below(b) <==> !(a.bits
                == 0x8000_0000_0000_0000 && b.bits == 0))
            &&& a.bits < 0x8000_0000_0000_0000 && b.bits >= 0x8000_0000_0000_0000 ==> !a.below(b)
            &&& a.at_most(b) <==> !b.below(a)
            &&& a.at_most(infinity())
        },
        infinity().bits == 0x7ff0_0000_0000_0000,
        zero().bits == 0,
        one().bits == 0x3ff0_0000_0000_0000,
        half().bits == 0x3fe0_0000_0000_0000,
{
    lemma_magnitude_order(a.low(), b.low());
    lemma_magnitude_order(b.low(), a.low());
    lemma_magnitude_order(0, a.low());
    lemma_magnitude_order(0, b.low());
    lemma_magnitude_order(a.low(), INFINITY_BITS as nat);
    lemma_magnitude_order(0, INFINITY_BITS as nat);
    assert(magnitude(0) == 0);
}

/// The total order goes by the bits alone: patterns with a sign come first and
/// fall, those without one follow and rise.
pub proof fn places_go_by_bits(a: Binary64, b: Binary64)
    ensures
        a.bits < 0x8000_0000_0000_0000 && b.bits < 0x8000_0000_0000_0000 ==> (a.place() < b.place() <==> a.bits < b.bits),
        a.bits >= 0x8000_0000_0000_0000 && b.bits >= 0x8000_0000_0000_0000 ==> (a.place() < b.place() <==> a.bits > b.bits),
        a.bits >= 0x8000_0000_0000_0000 && b.bits < 0x8000_0000_0000_0000 ==> a.place() < b.place(),
        place_lt()(a, b) <==> a.place() < b.place(),
{
}

/// Clamping keeps what lies from zero to one, both zeros and every NaN; takes
/// what is smaller to zero, and what is greater to one.
pub proof fn clamping_goes_to_the_nearest_end(p: Binary64)
    ensures
        p.bits <= 0x3ff0_0000_0000_0000 || p.bits == 0x8000_0000_0000_0000 || p.is_nan() ==> p.clamped() == p,
        0x3ff0_0000_0000_0000 < p.bits <= 0x7ff0_0000_0000_0000 ==> p.clamped() == (Binary64 { bits: 0x3ff0_0000_0000_0000 }),
        p.bits > 0x8000_0000_0000_0000 && !p.is_nan() ==> p.clamped() == (Binary64 { bits: 0 }),
{
    numbers_compare_by_bits(p, zero());
    numbers_compare_by_bits(one(), p);
    constants();
}

} // verus!
