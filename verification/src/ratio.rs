//! Comparing fractions of natural numbers without dividing.

use vstd::prelude::*;

verus! {

/// The exact value `num / den` of a statistic; `den` is never 0.
#[derive(Clone, Copy, Debug, PartialEq, Eq, Structural)]
pub struct Fraction {
    pub num: u128,
    pub den: u128,
}

/// `num / den`, or `0 / 1` where `den` is 0: the value of a statistic that
/// is 0 by definition when there is nothing to average over.
pub open spec fn fraction_or_zero(num: nat, den: nat) -> (nat, nat) {
    if den == 0 {
        (0, 1)
    } else {
        (num, den)
    }
}

/// `n1 / d1 < n2 / d2` for positive denominators, by cross-multiplication.
pub open spec fn ratio_lt(n1: int, d1: int, n2: int, d2: int) -> bool {
    n1 * d2 < n2 * d1
}

/// `n1 / d1 == n2 / d2` for positive denominators, by cross-multiplication.
pub open spec fn ratio_eq(n1: int, d1: int, n2: int, d2: int) -> bool {
    n1 * d2 == n2 * d1
}

/// Two fractions of positive denominators are equal, or one is the smaller.
pub proof fn lemma_ratio_trichotomy(n1: int, d1: int, n2: int, d2: int)
    ensures
        ratio_lt(n1, d1, n2, d2) || ratio_eq(n1, d1, n2, d2) || ratio_lt(n2, d2, n1, d1),
        !(ratio_lt(n1, d1, n2, d2) && ratio_lt(n2, d2, n1, d1)),
        !(ratio_lt(n1, d1, n2, d2) && ratio_eq(n1, d1, n2, d2)),
        ratio_eq(n1, d1, n2, d2) == ratio_eq(n2, d2, n1, d1),
{
}

/// The order of fractions is transitive: from `a <= b` and `b <= c` follows
/// `a <= c`, and `a < c` if one of the two is strict.
pub proof fn lemma_ratio_chain(n1: int, d1: int, n2: int, d2: int, n3: int, d3: int)
    requires
        d1 > 0,
        d2 > 0,
        d3 > 0,
        !ratio_lt(n2, d2, n1, d1),
        !ratio_lt(n3, d3, n2, d2),
    ensures
        !ratio_lt(n3, d3, n1, d1),
        ratio_lt(n1, d1, n2, d2) || ratio_lt(n2, d2, n3, d3) ==> ratio_lt(n1, d1, n3, d3),
{
    let a = n1 * d2;
    let b = n2 * d1;
    let c = n2 * d3;
    let e = n3 * d2;
    assert(a <= b);
    assert(c <= e);
    assert(a * d3 <= b * d3) by (nonlinear_arith)
        requires
            a <= b,
            d3 > 0,
    ;
    assert(c * d1 <= e * d1) by (nonlinear_arith)
        requires
            c <= e,
            d1 > 0,
    ;
    assert(b * d3 == c * d1) by (nonlinear_arith)
        requires
            b == n2 * d1,
            c == n2 * d3,
    ;
    assert(a * d3 == (n1 * d3) * d2) by (nonlinear_arith)
        requires
            a == n1 * d2,
    ;
    assert(e * d1 == (n3 * d1) * d2) by (nonlinear_arith)
        requires
            e == n3 * d2,
    ;
    let p = n1 * d3;
    let q = n3 * d1;
    assert(p * d2 <= q * d2);
    assert(p <= q) by (nonlinear_arith)
        requires
            p * d2 <= q * d2,
            d2 > 0,
    ;
    if ratio_lt(n1, d1, n2, d2) {
        assert(a * d3 < b * d3) by (nonlinear_arith)
            requires
                a < b,
                d3 > 0,
        ;
        assert(p < q) by (nonlinear_arith)
            requires
                p * d2 < q * d2,
                d2 > 0,
        ;
    }
    if ratio_lt(n2, d2, n3, d3) {
        assert(c * d1 < e * d1) by (nonlinear_arith)
            requires
                c < e,
                d1 > 0,
        ;
        assert(p < q) by (nonlinear_arith)
            requires
                p * d2 < q * d2,
                d2 > 0,
        ;
    }
}

/// Whether `n1 / d1` is smaller than `n2 / d2`.
pub fn ratio_less(n1: usize, d1: usize, n2: usize, d2: usize) -> (b: bool)
    ensures
        b == ratio_lt(n1 as int, d1 as int, n2 as int, d2 as int),
{
    assert(n1 * d2 <= 0xffff_ffff_ffff_ffff * 0xffff_ffff_ffff_ffff) by (nonlinear_arith)
        requires
            0 <= n1 <= 0xffff_ffff_ffff_ffff,
            0 <= d2 <= 0xffff_ffff_ffff_ffff,
    ;
    assert(n2 * d1 <= 0xffff_ffff_ffff_ffff * 0xffff_ffff_ffff_ffff) by (nonlinear_arith)
        requires
            0 <= n2 <= 0xffff_ffff_ffff_ffff,
            0 <= d1 <= 0xffff_ffff_ffff_ffff,
    ;
    let left: u128 = (n1 as u128) * (d2 as u128);
    let right: u128 = (n2 as u128) * (d1 as u128);
    left < right
}

/// Whether `n1 / d1` equals `n2 / d2`.
pub fn ratio_equal(n1: usize, d1: usize, n2: usize, d2: usize) -> (b: bool)
    ensures
        b == ratio_eq(n1 as int, d1 as int, n2 as int, d2 as int),
{
    assert(n1 * d2 <= 0xffff_ffff_ffff_ffff * 0xffff_ffff_ffff_ffff) by (nonlinear_arith)
        requires
            0 <= n1 <= 0xffff_ffff_ffff_ffff,
            0 <= d2 <= 0xffff_ffff_ffff_ffff,
    ;
    assert(n2 * d1 <= 0xffff_ffff_ffff_ffff * 0xffff_ffff_ffff_ffff) by (nonlinear_arith)
        requires
            0 <= n2 <= 0xffff_ffff_ffff_ffff,
            0 <= d1 <= 0xffff_ffff_ffff_ffff,
    ;
    let left: u128 = (n1 as u128) * (d2 as u128);
    let right: u128 = (n2 as u128) * (d1 as u128);
    left == right
}

} // verus!
