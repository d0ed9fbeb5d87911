//! Exact scores.
//!
//! A score is a non-negative rational number, held as a mixed fraction
//! `units + numerator / denominator`. Scores are compared exactly, by
//! cross-multiplication, so no rounding ever decides an admission or a rank.

use vstd::prelude::*;

verus! {

/// A non-negative rational number `units + numerator / denominator`.
#[derive(Clone, Copy, Debug, PartialEq, Eq, Structural)]
pub struct Score {
    pub units: u64,
    pub numerator: u64,
    pub denominator: u64,
}

impl Score {
    /// The fraction part is proper and its denominator is not zero.
    pub open spec fn wf(self) -> bool {
        0 <= self.numerator < self.denominator
    }

    /// The numerator of the score written as one fraction over `denominator`.
    pub open spec fn numer(self) -> int {
        self.units * self.denominator + self.numerator
    }

    /// `self < other`, as rational numbers.
    pub open spec fn lt(self, other: Score) -> bool {
        self.numer() * other.denominator < other.numer() * self.denominator
    }

    /// `self == other`, as rational numbers.
    pub open spec fn same(self, other: Score) -> bool {
        self.numer() * other.denominator == other.numer() * self.denominator
    }

    /// The score `n`.
    pub open spec fn of_whole(n: u64) -> Score {
        Score { units: n, numerator: 0, denominator: 1 }
    }

    /// The score `n / d`.
    pub open spec fn of_ratio(n: nat, d: nat) -> Score {
        Score { units: (n / d) as u64, numerator: (n % d) as u64, denominator: d as u64 }
    }

    /// The score `n`.
    pub fn whole(n: u64) -> (s: Score)
        ensures
            s == Score::of_whole(n),
            s.wf(),
    {
        Score { units: n, numerator: 0, denominator: 1 }
    }

    /// The score `n / d`.
    pub fn ratio(n: u128, d: u64) -> (s: Score)
        requires
            d > 0,
            n / (d as u128) <= u64::MAX,
        ensures
            s == Score::of_ratio(n as nat, d as nat),
            s.wf(),
            s.numer() == n,
    {
        let wide: u128 = d as u128;
        let q: u128 = n / wide;
        let r: u128 = n % wide;
        proof {
            lemma_ratio_numer(n as nat, d as nat);
        }
        Score { units: q as u64, numerator: r as u64, denominator: d }
    }

    /// Whether `self < other`, as rational numbers.
    pub fn less_than(&self, other: &Score) -> (b: bool)
        requires
            self.wf(),
            other.wf(),
        ensures
            b == self.lt(*other),
    {
        proof {
            lemma_lt_by_parts(*self, *other);
            lemma_product_fits(self.numerator, other.denominator);
            lemma_product_fits(other.numerator, self.denominator);
        }
        if self.units != other.units {
            self.units < other.units
        } else {
            let left: u128 = (self.numerator as u128) * (other.denominator as u128);
            let right: u128 = (other.numerator as u128) * (self.denominator as u128);
            left < right
        }
    }

    /// Whether `self == other`, as rational numbers.
    pub fn same_as(&self, other: &Score) -> (b: bool)
        requires
            self.wf(),
            other.wf(),
        ensures
            b == self.same(*other),
    {
        proof {
            lemma_lt_by_parts(*self, *other);
            lemma_product_fits(self.numerator, other.denominator);
            lemma_product_fits(other.numerator, self.denominator);
        }
        if self.units != other.units {
            false
        } else {
            let left: u128 = (self.numerator as u128) * (other.denominator as u128);
            let right: u128 = (other.numerator as u128) * (self.denominator as u128);
            left == right
        }
    }
}

/// The product of two 64-bit numbers fits in 128 bits.
pub proof fn lemma_product_fits(x: u64, y: u64)
    ensures
        0 <= x * y <= u128::MAX,
{
    assert(0 <= x * y <= 0xffff_ffff_ffff_ffff * 0xffff_ffff_ffff_ffff) by (nonlinear_arith)
        requires
            0 <= x <= 0xffff_ffff_ffff_ffff,
            0 <= y <= 0xffff_ffff_ffff_ffff,
    ;
}

/// `n / d` as a mixed fraction is well formed and stands for `n / d`.
pub proof fn lemma_ratio_numer(n: nat, d: nat)
    requires
        0 < d <= u64::MAX,
        n / d <= u64::MAX,
    ensures
        Score::of_ratio(n, d).wf(),
        Score::of_ratio(n, d).numer() == n,
        Score::of_ratio(n, d).units == n / d,
        Score::of_ratio(n, d).numerator == n % d,
        Score::of_ratio(n, d).denominator == d,
{
    vstd::arithmetic::div_mod::lemma_fundamental_div_mod(n as int, d as int);
    vstd::arithmetic::div_mod::lemma_mod_bound(n as int, d as int);
    assert((n / d) * d == d * (n / d)) by (nonlinear_arith);
}

/// Two well-formed scores compare by their units first and by their fraction
/// parts second.
pub proof fn lemma_lt_by_parts(a: Score, b: Score)
    requires
        a.wf(),
        b.wf(),
    ensures
        a.units < b.units ==> a.lt(b) && !a.same(b),
        a.units > b.units ==> !a.lt(b) && !a.same(b),
        a.units == b.units ==> (a.lt(b) <==> a.numerator * b.denominator < b.numerator
            * a.denominator),
        a.units == b.units ==> (a.same(b) <==> a.numerator * b.denominator == b.numerator
            * a.denominator),
{
    let (u1, n1, d1) = (a.units as int, a.numerator as int, a.denominator as int);
    let (u2, n2, d2) = (b.units as int, b.numerator as int, b.denominator as int);
    assert((u1 * d1 + n1) * d2 == u1 * (d1 * d2) + n1 * d2) by (nonlinear_arith);
    assert((u2 * d2 + n2) * d1 == u2 * (d1 * d2) + n2 * d1) by (nonlinear_arith);
    assert(n1 * d2 < d1 * d2) by (nonlinear_arith)
        requires
            0 <= n1 < d1,
            0 < d2,
    ;
    assert(n2 * d1 < d1 * d2) by (nonlinear_arith)
        requires
            0 <= n2 < d2,
            0 < d1,
    ;
    assert(0 <= n1 * d2 && 0 <= n2 * d1) by (nonlinear_arith)
        requires
            0 <= n1,
            0 <= n2,
            0 < d1,
            0 < d2,
    ;
    if u1 < u2 {
        assert(u1 * (d1 * d2) + d1 * d2 <= u2 * (d1 * d2)) by (nonlinear_arith)
            requires
                u1 + 1 <= u2,
                0 < d1 * d2,
        ;
    }
    if u2 < u1 {
        assert(u2 * (d1 * d2) + d1 * d2 <= u1 * (d1 * d2)) by (nonlinear_arith)
            requires
                u2 + 1 <= u1,
                0 < d1 * d2,
        ;
    }
}

/// The order of scores is a strict total order up to equal value.
pub proof fn lemma_score_order(a: Score, b: Score, c: Score)
    requires
        a.denominator > 0,
        b.denominator > 0,
        c.denominator > 0,
    ensures
        !a.lt(a),
        a.same(a),
        a.same(b) <==> b.same(a),
        a.lt(b) ==> !b.lt(a) && !a.same(b),
        a.lt(b) || b.lt(a) || a.same(b),
        a.lt(b) && b.lt(c) ==> a.lt(c),
        a.lt(b) && b.same(c) ==> a.lt(c),
        a.same(b) && b.lt(c) ==> a.lt(c),
        a.same(b) && b.same(c) ==> a.same(c),
{
    let (x, p) = (a.numer(), a.denominator as int);
    let (y, q) = (b.numer(), b.denominator as int);
    let (z, r) = (c.numer(), c.denominator as int);
    assert(x * q < y * p && y * r < z * q ==> x * r < z * p) by (nonlinear_arith)
        requires
            p > 0,
            q > 0,
            r > 0,
    {
        if x * q < y * p && y * r < z * q {
            assert((x * q) * r < (y * p) * r);
            assert((y * r) * p < (z * q) * p);
            assert((x * r) * q < (z * p) * q);
        }
    }
    assert(x * q < y * p && y * r == z * q ==> x * r < z * p) by (nonlinear_arith)
        requires
            p > 0,
            q > 0,
            r > 0,
    {
        if x * q < y * p && y * r == z * q {
            assert((x * q) * r < (y * p) * r);
            assert((y * r) * p == (z * q) * p);
            assert((x * r) * q < (z * p) * q);
        }
    }
    assert(x * q == y * p && y * r < z * q ==> x * r < z * p) by (nonlinear_arith)
        requires
            p > 0,
            q > 0,
            r > 0,
    {
        if x * q == y * p && y * r < z * q {
            assert((x * q) * r == (y * p) * r);
            assert((y * r) * p < (z * q) * p);
            assert((x * r) * q < (z * p) * q);
        }
    }
    assert(x * q == y * p && y * r == z * q ==> x * r == z * p) by (nonlinear_arith)
        requires
            p > 0,
            q > 0,
            r > 0,
    {
        if x * q == y * p && y * r == z * q {
            assert((x * q) * r == (y * p) * r);
            assert((y * r) * p == (z * q) * p);
            assert((x * r) * q == (z * p) * q);
        }
    }
}

} // verus!
