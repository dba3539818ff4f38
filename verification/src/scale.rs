//! Affine remapping of one closed interval onto another, over fixed-point
//! elevations. A value `v` measured against the interval `[from.0, from.1]`
//! is mapped to `to.0 + (v - from.0) * (to.1 - to.0) / (from.1 - from.0)`.
//! No clamping is performed; inputs outside the source interval extrapolate.

use vstd::prelude::*;

verus! {

/// Fixed-point unit: the number of elevation units that stand for 1.0.
pub const UNIT: i64 = 1_000_000;

/// Every elevation and scale endpoint stays within [-Z_BOUND, Z_BOUND],
/// which keeps all intermediate arithmetic comfortably inside i128.
pub const Z_BOUND: i64 = 1_000_000_000_000;

/// The exact integer form of the affine map `v |-> c + (v-a)*(d-c)/(b-a)`.
/// Division is Euclidean; for `v >= a` and `d >= c` the operands are
/// non-negative, so it agrees with the machine division the code performs.
pub open spec fn affine_map(a: int, b: int, c: int, d: int, v: int) -> int {
    c + ((v - a) * (d - c)) / (b - a)
}

pub struct Scale {
    pub from: (i64, i64),
    pub to: (i64, i64),
}

impl Scale {
    /// A scale is well formed when its source interval is non-degenerate and
    /// increasing, its target interval is increasing, and all endpoints are
    /// bounded elevations.
    pub open spec fn wf(self) -> bool {
        &&& -Z_BOUND <= self.from.0 < self.from.1 <= Z_BOUND
        &&& -Z_BOUND <= self.to.0 <= self.to.1 <= Z_BOUND
    }

    pub open spec fn from_spec(self) -> (i64, i64) {
        self.from
    }

    pub open spec fn to_spec(self) -> (i64, i64) {
        self.to
    }

    /// What `scale` returns for an input `v`.
    pub open spec fn map_spec(self, v: int) -> int {
        affine_map(self.from.0 as int, self.from.1 as int, self.to.0 as int, self.to.1 as int, v)
    }

    /// A degenerate source interval (`from.0 == from.1`) leaves the map
    /// undefined, so callers may not construct one. The target interval must
    /// be increasing: every consumer in this crate maps onto increasing
    /// intervals, and the integer division is given exact meaning for that
    /// orientation only.
    pub fn new(from: (i64, i64), to: (i64, i64)) -> (s: Scale)
        requires
            -Z_BOUND <= from.0 < from.1 <= Z_BOUND,
            -Z_BOUND <= to.0 <= to.1 <= Z_BOUND,
        ensures
            s.from_spec() == from,
            s.to_spec() == to,
            s.wf(),
    {
        Scale { from, to }
    }

    /// Remaps `v`. The result is exact integer arithmetic: no rounding beyond
    /// the single floor division. Inputs outside the source interval
    /// extrapolate, so only the result needs to fit the machine word.
    pub fn scale(&self, v: i64) -> (r: i64)
        requires
            self.wf(),
            i64::MIN as int <= self.map_spec(v as int) <= i64::MAX as int,
        ensures
            r as int == self.map_spec(v as int),
    {
        let a = self.from.0;
        let b = self.from.1;
        let c = self.to.0;
        let d = self.to.1;
        let den: u128 = (b as i128 - a as i128) as u128;
        if v >= a {
            let num_l: i128 = v as i128 - a as i128;
            let num_r: i128 = d as i128 - c as i128;
            assert(num_l * num_r <= 0x1_0000_0000_0000_0000i128 * 0x4_0000_0000_0000i128)
                by (nonlinear_arith)
                requires
                    0 <= num_l <= 0x1_0000_0000_0000_0000i128,
                    0 <= num_r <= 0x4_0000_0000_0000i128,
            ;
            assert(num_l * num_r >= 0) by (nonlinear_arith)
                requires
                    num_l >= 0,
                    num_r >= 0,
            ;
            let num: u128 = (num_l * num_r) as u128;
            let q: u128 = num / den;
            proof {
                lemma_nonneg_div_le(num as int, den as int);
            }
            let r: i128 = c as i128 + q as i128;
            r as i64
        } else {
            let num_l: i128 = a as i128 - v as i128;
            let num_r: i128 = d as i128 - c as i128;
            assert(num_l * num_r <= 0x1_0000_0000_0000_0000i128 * 0x4_0000_0000_0000i128)
                by (nonlinear_arith)
                requires
                    0 <= num_l <= 0x1_0000_0000_0000_0000i128,
                    0 <= num_r <= 0x4_0000_0000_0000i128,
            ;
            assert(num_l * num_r >= 0) by (nonlinear_arith)
                requires
                    num_l >= 0,
                    num_r >= 0,
            ;
            let neg: u128 = (num_l * num_r) as u128;
            let qc: u128 = (neg + (den - 1)) / den;
            proof {
                lemma_nonneg_div_le(neg as int + den as int - 1, den as int);
                lemma_neg_div_is_ceil(neg as int, den as int);
                assert((v as int - a as int) * (d as int - c as int) == -(num_l * num_r))
                    by (nonlinear_arith)
                    requires
                        num_l == a as int - v as int,
                        num_r == d as int - c as int,
                ;
            }
            let r: i128 = c as i128 - qc as i128;
            r as i64
        }
    }
}

/// Euclidean division of a non-positive numerator is the negated rounded-up
/// quotient of its absolute value.
proof fn lemma_neg_div_is_ceil(neg: int, den: int)
    requires
        neg >= 0,
        den >= 1,
    ensures
        (-neg) / den == -((neg + den - 1) / den),
{
    let q = (-neg) / den;
    let r = (-neg) % den;
    vstd::arithmetic::div_mod::lemma_fundamental_div_mod(-neg, den);
    assert(0 <= r < den);
    if r == 0 {
        assert(neg + den - 1 == (-q) * den + (den - 1)) by (nonlinear_arith)
            requires
                den * q + r == -neg,
                r == 0,
        ;
        vstd::arithmetic::div_mod::lemma_fundamental_div_mod_converse(
            neg + den - 1,
            den,
            -q,
            den - 1,
        );
    } else {
        assert(neg + den - 1 == (-q) * den + (den - r - 1)) by (nonlinear_arith)
            requires
                den * q + r == -neg,
        ;
        vstd::arithmetic::div_mod::lemma_fundamental_div_mod_converse(
            neg + den - 1,
            den,
            -q,
            den - r - 1,
        );
    }
}

/// For a non-negative numerator and positive denominator, the quotient is
/// between zero and the numerator.
proof fn lemma_nonneg_div_le(num: int, den: int)
    requires
        num >= 0,
        den >= 1,
    ensures
        0 <= num / den <= num,
{
    assert(0 <= num / den <= num) by (nonlinear_arith)
        requires
            num >= 0,
            den >= 1,
    ;
}

/// The affine map is monotone in its argument when the target interval is
/// increasing.
pub proof fn lemma_affine_monotone(a: int, b: int, c: int, d: int, v1: int, v2: int)
    requires
        a < b,
        c <= d,
        v1 <= v2,
    ensures
        affine_map(a, b, c, d, v1) <= affine_map(a, b, c, d, v2),
{
    assert((v1 - a) * (d - c) <= (v2 - a) * (d - c)) by (nonlinear_arith)
        requires
            v1 <= v2,
            d - c >= 0,
    ;
    vstd::arithmetic::div_mod::lemma_div_is_ordered((v1 - a) * (d - c), (v2 - a) * (d - c), b - a);
}

/// An argument inside the source interval lands inside the target interval.
pub proof fn lemma_affine_endpoints(a: int, b: int, c: int, d: int, v: int)
    requires
        a < b,
        c <= d,
        a <= v <= b,
    ensures
        c <= affine_map(a, b, c, d, v) <= d,
        affine_map(a, b, c, d, a) == c,
        affine_map(a, b, c, d, b) == d,
{
    assert(affine_map(a, b, c, d, a) == c) by {
        assert((a - a) * (d - c) == 0);
        assert(0int / (b - a) == 0) by (nonlinear_arith)
            requires
                b - a >= 1,
        ;
    }
    assert(affine_map(a, b, c, d, b) == d) by {
        assert((b - a) * (d - c) == (d - c) * (b - a)) by (nonlinear_arith);
        vstd::arithmetic::div_mod::lemma_div_multiples_vanish(d - c, b - a);
    }
    lemma_affine_monotone(a, b, c, d, a, v);
    lemma_affine_monotone(a, b, c, d, v, b);
}

/// An argument strictly below the source top lands strictly below the target
/// top, provided the target interval is non-degenerate.
pub proof fn lemma_affine_strict_below(a: int, b: int, c: int, d: int, v: int)
    requires
        a < b,
        c < d,
        a <= v < b,
    ensures
        affine_map(a, b, c, d, v) < d,
{
    lemma_affine_monotone(a, b, c, d, v, b - 1);
    assert(affine_map(a, b, c, d, b - 1) <= d - 1) by {
        assert((b - 1 - a) * (d - c) <= (d - 1 - c) * (b - a) + (b - a) - 1) by (nonlinear_arith)
            requires
                b - a >= 1,
                d - c >= 1,
        ;
        vstd::arithmetic::div_mod::lemma_fundamental_div_mod((b - 1 - a) * (d - c), b - a);
        assert(((b - 1 - a) * (d - c)) / (b - a) <= d - 1 - c) by (nonlinear_arith)
            requires
                b - a >= 1,
                (b - 1 - a) * (d - c) <= (d - 1 - c) * (b - a) + (b - a) - 1,
                (b - a) * (((b - 1 - a) * (d - c)) / (b - a)) + ((b - 1 - a) * (d - c)) % (b - a)
                    == (b - 1 - a) * (d - c),
                 0 <= ((b - 1 - a) * (d - c)) % (b - a),
        ;
    }
}

/// Round trip: a value mapped from interval A onto interval B and mapped back
/// from B onto A is returned unchanged, whenever the forward division is
/// exact. (With integer elevations the forward map rounds down; on inputs
/// where it loses a remainder the round trip may land below `v`, so those
/// inputs are excluded here, as rounding is in the floating-point statement.)
pub proof fn lemma_scale_round_trip(a: int, b: int, c: int, d: int, v: int)
    requires
        a < b,
        c < d,
        a <= v <= b,
        ((v - a) * (d - c)) % (b - a) == 0,
    ensures
        affine_map(c, d, a, b, affine_map(a, b, c, d, v)) == v,
{
    let w = affine_map(a, b, c, d, v);
    let q = ((v - a) * (d - c)) / (b - a);
    assert(w - c == q);
    vstd::arithmetic::div_mod::lemma_fundamental_div_mod((v - a) * (d - c), b - a);
    assert(q * (b - a) == (v - a) * (d - c)) by (nonlinear_arith)
        requires
            (b - a) * q + ((v - a) * (d - c)) % (b - a) == (v - a) * (d - c),
            ((v - a) * (d - c)) % (b - a) == 0,
    ;
    assert((w - c) * (b - a) == (v - a) * (d - c));
    assert(affine_map(c, d, a, b, w) == a + ((w - c) * (b - a)) / (d - c));
    assert(((v - a) * (d - c)) == (v - a) * (d - c)) by (nonlinear_arith);
    assert(((w - c) * (b - a)) / (d - c) == v - a) by {
        assert((w - c) * (b - a) == (v - a) * (d - c)) by (nonlinear_arith)
            requires
                (w - c) * (b - a) == (v - a) * (d - c),
        ;
        assert(((v - a) * (d - c)) == ((d - c) * (v - a))) by (nonlinear_arith);
        vstd::arithmetic::div_mod::lemma_div_multiples_vanish(v - a, d - c);
    }
}

/// How far the affine map can move away from the bottom of the target
/// interval, in either direction.
pub proof fn lemma_affine_output_bound(a: int, b: int, c: int, d: int, v: int)
    requires
        a < b,
        c <= d,
    ensures
        v >= a ==> c <= affine_map(a, b, c, d, v) <= c + (v - a) * (d - c),
        v < a ==> c - (a - v) * (d - c) <= affine_map(a, b, c, d, v) <= c,
{
    let num = (v - a) * (d - c);
    if v >= a {
        assert(num >= 0) by (nonlinear_arith)
            requires
                num == (v - a) * (d - c),
                v - a >= 0,
                d - c >= 0,
        ;
        lemma_nonneg_div_le(num, b - a);
    } else {
        assert(num <= 0) by (nonlinear_arith)
            requires
                num == (v - a) * (d - c),
                v - a < 0,
                d - c >= 0,
        ;
        assert(num <= num / (b - a) <= 0) by (nonlinear_arith)
            requires
                num <= 0,
                b - a >= 1,
        ;
        assert(num == -((a - v) * (d - c))) by (nonlinear_arith)
            requires
                num == (v - a) * (d - c),
        ;
    }
}

} // verus!
