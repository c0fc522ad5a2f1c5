//! Exact fractions for means, variances and bounds on variances.

use vstd::prelude::*;

verus! {

/// The largest numerator that a comparison accepts.
pub const NUM_LIMIT: u128 = 0x1_0000_0000_0000_0000_0000_0000;

/// The largest denominator that a comparison accepts.
pub const DEN_LIMIT: u128 = 0x4000_0000;

/// The fraction `num / den`, kept exactly.
#[derive(Clone, Copy, Debug)]
pub struct Ratio {
    pub num: u128,
    pub den: u128,
}

/// `n1 / d1 < n2 / d2`, for positive denominators.
pub open spec fn frac_lt(n1: int, d1: int, n2: int, d2: int) -> bool {
    n1 * d2 < n2 * d1
}

/// `n1 / d1 <= n2 / d2`, for positive denominators.
pub open spec fn frac_le(n1: int, d1: int, n2: int, d2: int) -> bool {
    n1 * d2 <= n2 * d1
}

/// The order of fractions is transitive.
pub proof fn lemma_frac_le_transitive(n1: int, d1: int, n2: int, d2: int, n3: int, d3: int)
    requires
        d1 > 0,
        d2 > 0,
        d3 > 0,
        frac_le(n1, d1, n2, d2),
        frac_le(n2, d2, n3, d3),
    ensures
        frac_le(n1, d1, n3, d3),
{
    assert(n1 * d2 * d3 <= n2 * d1 * d3) by (nonlinear_arith)
        requires
            n1 * d2 <= n2 * d1,
            d3 > 0,
    ;
    assert(n2 * d3 * d1 <= n3 * d2 * d1) by (nonlinear_arith)
        requires
            n2 * d3 <= n3 * d2,
            d1 > 0,
    ;
    assert(n1 * d3 <= n3 * d1) by (nonlinear_arith)
        requires
            n1 * d2 * d3 <= n2 * d1 * d3,
            n2 * d3 * d1 <= n3 * d2 * d1,
            d2 > 0,
    ;
}

/// What is strictly below a fraction is strictly below whatever the
/// fraction is at most.
pub proof fn lemma_frac_lt_le(n1: int, d1: int, n2: int, d2: int, n3: int, d3: int)
    requires
        d1 > 0,
        d2 > 0,
        d3 > 0,
        frac_lt(n1, d1, n2, d2),
        frac_le(n2, d2, n3, d3),
    ensures
        frac_lt(n1, d1, n3, d3),
{
    assert(n1 * d2 * d3 < n2 * d1 * d3) by (nonlinear_arith)
        requires
            n1 * d2 < n2 * d1,
            d3 > 0,
    ;
    assert(n2 * d3 * d1 <= n3 * d2 * d1) by (nonlinear_arith)
        requires
            n2 * d3 <= n3 * d2,
            d1 > 0,
    ;
    assert(n1 * d3 < n3 * d1) by (nonlinear_arith)
        requires
            n1 * d2 * d3 < n2 * d1 * d3,
            n2 * d3 * d1 <= n3 * d2 * d1,
            d2 > 0,
    ;
}

impl Ratio {
    /// The fraction is defined and small enough to be compared.
    pub open spec fn wf(&self) -> bool {
        0 < self.den <= DEN_LIMIT && self.num <= NUM_LIMIT
    }

    /// This fraction is strictly less than `other`.
    pub open spec fn lt_spec(&self, other: &Ratio) -> bool {
        frac_lt(self.num as int, self.den as int, other.num as int, other.den as int)
    }

    /// This fraction is at most `other`.
    pub open spec fn le_spec(&self, other: &Ratio) -> bool {
        frac_le(self.num as int, self.den as int, other.num as int, other.den as int)
    }

    /// Both fractions stand for the same number.
    pub open spec fn same(&self, other: &Ratio) -> bool {
        self.num as int * other.den as int == other.num as int * self.den as int
    }

    /// Whether this fraction is strictly less than `other`.
    pub fn lt(&self, other: &Ratio) -> (r: bool)
        requires
            self.wf(),
            other.wf(),
        ensures
            r == self.lt_spec(other),
    {
        proof {
            lemma_product_fits(self.num, other.den);
            lemma_product_fits(other.num, self.den);
        }
        self.num * other.den < other.num * self.den
    }

    /// Whether both fractions stand for the same number.
    pub fn equals(&self, other: &Ratio) -> (r: bool)
        requires
            self.wf(),
            other.wf(),
        ensures
            r == self.same(other),
    {
        proof {
            lemma_product_fits(self.num, other.den);
            lemma_product_fits(other.num, self.den);
        }
        self.num * other.den == other.num * self.den
    }

    /// Whether the fraction is zero.
    pub fn is_zero(&self) -> (r: bool)
        ensures
            r == (self.num == 0),
    {
        self.num == 0
    }
}

/// A numerator times a denominator, both within their limits, fits the
/// machine word.
pub proof fn lemma_product_fits(n: u128, d: u128)
    requires
        n <= NUM_LIMIT,
        d <= DEN_LIMIT,
    ensures
        n * d <= u128::MAX,
{
    assert(n * d <= 0x1_0000_0000_0000_0000_0000_0000 * 0x4000_0000) by (nonlinear_arith)
        requires
            n <= 0x1_0000_0000_0000_0000_0000_0000,
            d <= 0x4000_0000,
    ;
}

/// Whether `candidate` is strictly less than the best value so far, where
/// `None` stands for no value yet.
pub fn improves(candidate: &Ratio, best: &Option<Ratio>) -> (r: bool)
    requires
        candidate.wf(),
        best is Some ==> best->0.wf(),
    ensures
        r == beats(*candidate, *best),
{
    match best {
        None => true,
        Some(b) => candidate.lt(b),
    }
}

/// `candidate` is strictly less than `best`, where `None` stands for no
/// value yet.
pub open spec fn beats(candidate: Ratio, best: Option<Ratio>) -> bool {
    match best {
        None => true,
        Some(b) => candidate.lt_spec(&b),
    }
}

/// A best value is valid: there is none yet, or it is a valid fraction.
pub open spec fn best_wf(best: Option<Ratio>) -> bool {
    match best {
        None => true,
        Some(b) => b.wf(),
    }
}

/// `new` is a best value that is at most the best value `old`, where
/// `None` stands for no value yet.
pub open spec fn no_worse(new: Option<Ratio>, old: Option<Ratio>) -> bool {
    match old {
        None => true,
        Some(o) => new is Some && new->0.le_spec(&o),
    }
}

/// Best values only improve: `no_worse` is transitive.
pub proof fn lemma_no_worse_transitive(a: Option<Ratio>, b: Option<Ratio>, c: Option<Ratio>)
    requires
        no_worse(a, b),
        no_worse(b, c),
        a is Some ==> a->0.wf(),
        b is Some ==> b->0.wf(),
        c is Some ==> c->0.wf(),
    ensures
        no_worse(a, c),
{
    if c is Some {
        lemma_frac_le_transitive(
            a->0.num as int,
            a->0.den as int,
            b->0.num as int,
            b->0.den as int,
            c->0.num as int,
            c->0.den as int,
        );
    }
}

} // verus!
