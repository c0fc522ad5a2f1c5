//! Mean and population variance of the values of a country, as exact
//! fractions.

use vstd::prelude::*;
use crate::country::Country;
use crate::country::MAX_TOTAL;
use crate::ratio::Ratio;
use crate::sums::lemma_square_of_total;
use crate::sums::lemma_subrange_bounds;
use crate::sums::lemma_total_bounds;
use crate::sums::sum_sq;
use crate::sums::total;
use crate::sums::variance_den;
use crate::sums::variance_num;

verus! {

/// Machine values as mathematical integers.
pub open spec fn as_ints(s: Seq<u64>) -> Seq<int> {
    Seq::new(s.len(), |i: int| s[i] as int)
}

/// The sum of `v[from..to]`.
pub fn range_total(v: &Vec<u64>, from: usize, to: usize) -> (r: u64)
    requires
        from <= to <= v@.len(),
        total(as_ints(v@)) <= u64::MAX,
    ensures
        r == total(as_ints(v@).subrange(from as int, to as int)),
{
    let ghost s = as_ints(v@);
    let mut r: u64 = 0;
    let mut i: usize = from;
    assert(s.subrange(from as int, from as int) =~= Seq::<int>::empty());
    while i < to
        invariant
            from <= i <= to <= v@.len(),
            s == as_ints(v@),
            total(s) <= u64::MAX,
            r == total(s.subrange(from as int, i as int)),
        decreases to - i,
    {
        proof {
            assert(s.subrange(from as int, i + 1).drop_last() =~= s.subrange(from as int, i as int));
            lemma_subrange_bounds(s, from as int, i + 1);
        }
        r = r + v[i];
        i = i + 1;
    }
    r
}

/// The sum of the squares of `v[from..to]`.
pub fn range_sum_sq(v: &Vec<u64>, from: usize, to: usize) -> (r: u128)
    requires
        from <= to <= v@.len(),
        total(as_ints(v@)) <= MAX_TOTAL,
    ensures
        r == sum_sq(as_ints(v@).subrange(from as int, to as int)),
        r <= MAX_TOTAL * MAX_TOTAL,
{
    let ghost s = as_ints(v@);
    let mut r: u128 = 0;
    let mut i: usize = from;
    assert(s.subrange(from as int, from as int) =~= Seq::<int>::empty());
    while i < to
        invariant
            from <= i <= to <= v@.len(),
            s == as_ints(v@),
            total(s) <= MAX_TOTAL,
            r == sum_sq(s.subrange(from as int, i as int)),
            r <= MAX_TOTAL * MAX_TOTAL,
        decreases to - i,
    {
        proof {
            assert(s.subrange(from as int, i + 1).drop_last() =~= s.subrange(from as int, i as int));
            lemma_subrange_bounds(s, from as int, i + 1);
            lemma_total_bounds(s);
            assert(s[i as int] * s[i as int] <= 0xFFFF_FFFF * 0xFFFF_FFFF) by (nonlinear_arith)
                requires
                    0 <= s[i as int] <= 0xFFFF_FFFF,
            ;
            assert(total(s) * total(s) <= 0xFFFF_FFFF * 0xFFFF_FFFF) by (nonlinear_arith)
                requires
                    0 <= total(s) <= 0xFFFF_FFFF,
            ;
        }
        let x: u128 = v[i] as u128;
        r = r + x * x;
        i = i + 1;
    }
    r
}

impl Country {
    /// The values of the regions, in the order in which they are kept.
    pub fn gdp_values(&self) -> (v: Vec<u64>)
        ensures
            as_ints(v@) == self.values(),
    {
        let mut v: Vec<u64> = Vec::new();
        let mut i: usize = 0;
        while i < self.regions.len()
            invariant
                i <= self.regions@.len(),
                v@.len() == i,
                forall|j: int| 0 <= j < i ==> v@[j] == self.regions@[j].gdp,
            decreases self.regions@.len() - i,
        {
            v.push(self.regions[i].gdp);
            i = i + 1;
        }
        assert(as_ints(v@) =~= self.values());
        v
    }

    /// The sum of the values of the regions.
    pub fn total_gdp(&self) -> (t: u64)
        requires
            self.within_limits(),
        ensures
            t == total(self.values()),
            t <= MAX_TOTAL,
    {
        let v = self.gdp_values();
        assert(as_ints(v@).subrange(0, v@.len() as int) =~= as_ints(v@));
        range_total(&v, 0, v.len())
    }

    /// The mean of the values of the regions: their sum over their number.
    /// There is none where there is no region.
    pub fn avg_gdp(&self) -> (r: Option<Ratio>)
        requires
            self.within_limits(),
        ensures
            r is None <==> self.regions@.len() == 0,
            r is Some ==> r->0.wf() && r->0.num == total(self.values()) && r->0.den
                == self.regions@.len(),
    {
        if self.regions.len() == 0 {
            return None;
        }
        let t = self.total_gdp();
        Some(Ratio { num: t as u128, den: self.regions.len() as u128 })
    }

    /// The population variance of the values of the regions: the mean of
    /// the squared distances from the mean. There is none where there is no
    /// region.
    pub fn std_dev_sq(&self) -> (r: Option<Ratio>)
        requires
            self.within_limits(),
        ensures
            r is None <==> self.regions@.len() == 0,
            r is Some ==> r->0.wf() && r->0.num == variance_num(self.values()) && r->0.den
                == variance_den(self.values()),
    {
        let n: usize = self.regions.len();
        if n == 0 {
            return None;
        }
        let v = self.gdp_values();
        let ghost s = as_ints(v@);
        assert(s.subrange(0, v@.len() as int) =~= s);
        let t: u128 = range_total(&v, 0, n) as u128;
        let q: u128 = range_sum_sq(&v, 0, n);
        let count: u128 = n as u128;
        proof {
            lemma_square_of_total(s);
            assert(count * q <= 1024 * (0xFFFF_FFFF * 0xFFFF_FFFF)) by (nonlinear_arith)
                requires
                    0 <= count <= 1024,
                    0 <= q <= 0xFFFF_FFFF * 0xFFFF_FFFF,
            ;
            assert(t * t <= count * q);
            assert(s == self.values());
            assert(count * q - t * t == variance_num(s));
            assert(count * count == variance_den(s));
            assert(1024 * (0xFFFF_FFFF * 0xFFFF_FFFF) <= 0x1_0000_0000_0000_0000_0000_0000int);
            assert(0 < count * count <= 1024 * 1024) by (nonlinear_arith)
                requires
                    1 <= count <= 1024,
            ;
        }
        Some(Ratio { num: count * q - t * t, den: count * count })
    }
}

} // verus!
