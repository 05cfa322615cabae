//! Exact search scores: a rational number `num / den` with a positive denominator.
use vstd::prelude::*;

verus! {

/// Largest magnitude of a score's numerator.
pub const NUM_BOUND: i128 = 1_000_000_000_000_000;

/// Largest denominator of a score.
pub const DEN_BOUND: i128 = 10_000_000_000;

/// The value of a won position (above every heuristic value).
pub const WIN_NUM: i128 = 10_000_000_000_000;

/// The value standing for infinity in the search (above every won position).
pub const INF_NUM: i128 = 100_000_000_000_000;

/// A score `num / den`. Two scores are compared by their rational values.
#[derive(Clone, Copy, PartialEq, Eq, Debug, Structural)]
pub struct Score {
    pub num: i128,
    pub den: i128,
}

pub open spec fn lt(a: Score, b: Score) -> bool {
    (a.num as int) * (b.den as int) < (b.num as int) * (a.den as int)
}

/// The larger of two scores; the second one on a tie.
pub open spec fn max_score(a: Score, b: Score) -> Score {
    if lt(b, a) {
        a
    } else {
        b
    }
}

/// The smaller of two scores; the second one on a tie.
pub open spec fn min_score(a: Score, b: Score) -> Score {
    if lt(a, b) {
        a
    } else {
        b
    }
}

pub open spec fn neg(a: Score) -> Score {
    Score { num: (-a.num) as i128, den: a.den }
}

pub open spec fn neg_infinity() -> Score {
    Score { num: (-INF_NUM) as i128, den: 1 }
}

pub open spec fn pos_infinity() -> Score {
    Score { num: INF_NUM, den: 1 }
}

proof fn lemma_product_fits(a: int, b: int)
    requires
        -NUM_BOUND <= a <= NUM_BOUND,
        1 <= b <= DEN_BOUND,
    ensures
        -NUM_BOUND * DEN_BOUND <= a * b <= NUM_BOUND * DEN_BOUND,
{
    assert(-NUM_BOUND * DEN_BOUND <= a * b <= NUM_BOUND * DEN_BOUND) by (nonlinear_arith)
        requires
            -NUM_BOUND <= a <= NUM_BOUND,
            1 <= b <= DEN_BOUND,
    ;
}

/// Comparing scores is a strict weak order: passing through a score that is
/// at least as large, or larger, keeps the order.
pub proof fn lemma_lt_transitive(a: Score, b: Score, c: Score)
    requires
        a.wf(),
        b.wf(),
        c.wf(),
    ensures
        lt(a, b) && !lt(c, b) ==> lt(a, c),
        !lt(b, a) && lt(b, c) ==> lt(a, c),
        !lt(b, a) && !lt(c, b) ==> !lt(c, a),
        lt(a, b) ==> !lt(b, a),
{
    let an = a.num as int;
    let ad = a.den as int;
    let bn = b.num as int;
    let bd = b.den as int;
    let cn = c.num as int;
    let cd = c.den as int;
    assert(an * bd < bn * ad && bn * cd <= cn * bd ==> an * cd < cn * ad) by (nonlinear_arith)
        requires
            ad > 0,
            bd > 0,
            cd > 0,
    ;
    assert(an * bd <= bn * ad && bn * cd < cn * bd ==> an * cd < cn * ad) by (nonlinear_arith)
        requires
            ad > 0,
            bd > 0,
            cd > 0,
    ;
    assert(an * bd <= bn * ad && bn * cd <= cn * bd ==> an * cd <= cn * ad) by (nonlinear_arith)
        requires
            ad > 0,
            bd > 0,
            cd > 0,
    ;
}

impl Score {
    /// The numerator fits its bound and the denominator is positive and bounded.
    pub open spec fn wf(&self) -> bool {
        &&& 1 <= self.den <= DEN_BOUND
        &&& -NUM_BOUND <= self.num <= NUM_BOUND
    }

    /// Minus infinity of the search.
    pub fn neg_infinity() -> (r: Score)
        ensures
            r == neg_infinity(),
            r.wf(),
    {
        Score { num: -INF_NUM, den: 1 }
    }

    /// Plus infinity of the search.
    pub fn pos_infinity() -> (r: Score)
        ensures
            r == pos_infinity(),
            r.wf(),
    {
        Score { num: INF_NUM, den: 1 }
    }

    /// Whether this score is strictly below `other`.
    pub fn less_than(&self, other: &Score) -> (r: bool)
        requires
            self.wf(),
            other.wf(),
        ensures
            r == lt(*self, *other),
    {
        proof {
            lemma_product_fits(self.num as int, other.den as int);
            lemma_product_fits(other.num as int, self.den as int);
        }
        self.num * other.den < other.num * self.den
    }
}

/// The larger of two scores; the second one on a tie.
pub fn get_max_util(a: Score, b: Score) -> (r: Score)
    requires
        a.wf(),
        b.wf(),
    ensures
        r == max_score(a, b),
{
    if b.less_than(&a) {
        a
    } else {
        b
    }
}

/// The smaller of two scores; the second one on a tie.
pub fn get_min_util(a: Score, b: Score) -> (r: Score)
    requires
        a.wf(),
        b.wf(),
    ensures
        r == min_score(a, b),
{
    if a.less_than(&b) {
        a
    } else {
        b
    }
}

} // verus!
