//! Probabilities as exact fractions.

use crate::predictors::ranking::Score;
use vstd::prelude::*;

verus! {

/// The fraction `num / den`.
#[derive(Clone, Copy, Debug)]
pub struct Probability {
    pub num: u128,
    pub den: u128,
}

/// The smoothed share of an outcome seen `count` times in `total`
/// observations of `experts` outcomes: each outcome counts once more than it
/// was seen.
pub open spec fn laplace(count: u64, total: u64, experts: nat) -> Probability {
    Probability { num: (count + 1) as u128, den: (total + experts) as u128 }
}

impl Probability {
    /// The smoothed share of an outcome seen `count` times in `total`
    /// observations of `experts` outcomes.
    pub fn smoothed(count: u64, total: u64, experts: usize) -> (p: Probability)
        ensures
            p == laplace(count, total, experts as nat),
            p.num == count + 1,
            p.den == total + experts,
            experts > 0 ==> p.valid(),
    {
        Probability { num: count as u128 + 1, den: total as u128 + experts as u128 }
    }
}

impl Score for Probability {
    open spec fn valid(self) -> bool {
        self.num <= 0x1_0000_0000_0000_0000 && 0 < self.den < 0x2_0000_0000_0000_0000
    }

    open spec fn above(self, other: Self) -> bool {
        self.num * other.den > other.num * self.den
    }

    proof fn asymmetric(x: Self, y: Self) {
    }

    proof fn weak_order(x: Self, y: Self, z: Self) {
        let (xn, xd) = (x.num as int, x.den as int);
        let (yn, yd) = (y.num as int, y.den as int);
        let (zn, zd) = (z.num as int, z.den as int);
        if xn * yd <= yn * xd && yn * zd <= zn * yd {
            assert(false) by (nonlinear_arith)
                requires
                    xn * yd <= yn * xd,
                    yn * zd <= zn * yd,
                    xn * zd > zn * xd,
                    xd > 0,
                    yd > 0,
                    zd > 0,
            {
                assert((xn * yd) * zd <= (yn * xd) * zd);
                assert((yn * zd) * xd <= (zn * yd) * xd);
                assert((xn * zd) * yd > (zn * xd) * yd);
            }
        }
    }

    fn is_above(&self, other: &Self) -> (b: bool) {
        let (a, b) = (self.num, other.den);
        let (c, d) = (other.num, self.den);
        proof {
            lemma_halves(a as int, b as int);
            lemma_halves(c as int, d as int);
        }
        let x: u128 = a * (b / 2);
        let y: u128 = a * (b % 2);
        let v: u128 = c * (d / 2);
        let w: u128 = c * (d % 2);
        if x >= v {
            if y >= w {
                x > v || y > w
            } else {
                x - v > (w - y) / 2
            }
        } else {
            y > w && (y - w - 1) / 2 >= v - x
        }
    }
}

/// A product split along the halves of its second factor.
proof fn lemma_halves(a: int, b: int)
    requires
        0 <= a <= 0x1_0000_0000_0000_0000,
        0 <= b < 0x2_0000_0000_0000_0000,
    ensures
        a * b == 2 * (a * (b / 2)) + a * (b % 2),
        0 <= a * (b / 2) <= u128::MAX,
        0 <= a * (b % 2) <= a,
{
    let h = b / 2;
    let r = b % 2;
    assert(b == 2 * h + r);
    assert(a * b == 2 * (a * h) + a * r) by (nonlinear_arith)
        requires
            b == 2 * h + r,
    ;
    assert(0 <= a * h <= 0x1_0000_0000_0000_0000 * 0xFFFF_FFFF_FFFF_FFFF) by (nonlinear_arith)
        requires
            0 <= a <= 0x1_0000_0000_0000_0000,
            0 <= h <= 0xFFFF_FFFF_FFFF_FFFF,
    ;
    assert(0 <= a * r <= a) by (nonlinear_arith)
        requires
            0 <= a,
            0 <= r <= 1,
    ;
}

/// Of two fractions the one is above the other whose numerator is the higher
/// one on a common denominator; the smoothed share of an outcome counts it and
/// each of the outcomes once more.
pub proof fn law_fractions(a: Probability, b: Probability, count: u64, total: u64, experts: nat)
    ensures
        a.above(b) <==> a.num * b.den > b.num * a.den,
        a.valid() <==> a.num <= 0x1_0000_0000_0000_0000 && 0 < a.den < 0x2_0000_0000_0000_0000,
        laplace(count, total, experts).num == count + 1,
        experts <= u64::MAX ==> laplace(count, total, experts).den == total + experts,
{
}

} // verus!
