//! The lower bound on the variance of any partition into a given number of
//! clusters: the values are levelled as if they could be split and
//! regrouped freely.

use vstd::prelude::*;
use vstd::relations::sorted_by;
use vstd::relations::total_ordering;
use vstd::seq_lib::lemma_sorted_unique;
use vstd::seq_lib::to_multiset_build;
use vstd::seq_lib::to_multiset_insert;
use crate::country::Country;
use crate::country::MAX_REGIONS;
use crate::country::MAX_TOTAL;
use crate::ratio::DEN_LIMIT;
use crate::ratio::NUM_LIMIT;
use crate::ratio::Ratio;
use crate::stats::as_ints;
use crate::stats::range_sum_sq;
use crate::stats::range_total;
use crate::sums::ident;
use crate::sums::lemma_square_of_total;
use crate::sums::lemma_subrange_bounds;
use crate::sums::lemma_sum_permutation;
use crate::sums::lemma_sum_first;
use crate::sums::lemma_sum_single;
use crate::sums::lemma_variance_permutation;
use crate::sums::variance_den;
use crate::sums::variance_num;
use crate::sums::lemma_sum_split;
use crate::sums::lemma_total_bounds;
use crate::sums::square;
use crate::sums::sum_sq;
use crate::sums::total;

verus! {

/// No item is smaller than an item before it.
pub open spec fn ascending(s: Seq<int>) -> bool {
    forall|i: int, j: int| 0 <= i <= j < s.len() ==> s[i] <= s[j]
}

/// A sequence in ascending order with the items of `s` is `s.sort()`.
pub proof fn lemma_ascending_is_sort(r: Seq<int>, s: Seq<int>)
    requires
        ascending(r),
        r.to_multiset() == s.to_multiset(),
    ensures
        r == s.sort(),
{
    let leq = |x: int, y: int| x <= y;
    s.lemma_sort_ensures();
    let t = s.sort();
    assert(sorted_by(t, leq)) by {
        assert forall|i: int, j: int| 0 <= i < j < t.len() implies #[trigger] leq(t[i], t[j]) by {
            assert(sorted_by(t, |x: int, y: int| x <= y));
            assert((|x: int, y: int| x <= y)(t[i], t[j]));
        }
    }
    assert(sorted_by(r, leq));
    assert(total_ordering(leq));
    lemma_sorted_unique(r, t, leq);
}

/// What `s.sort()` is: the items of `s` in ascending order.
pub proof fn lemma_sort_is_ascending(s: Seq<int>)
    ensures
        ascending(s.sort()),
        s.sort().to_multiset() == s.to_multiset(),
        s.sort().len() == s.len(),
{
    s.lemma_sort_ensures();
    let t = s.sort();
    assert forall|i: int, j: int| 0 <= i <= j < t.len() implies t[i] <= t[j] by {
        if i < j {
            assert(sorted_by(t, |x: int, y: int| x <= y));
            assert((|x: int, y: int| x <= y)(t[i], t[j]));
        }
    }
    vstd::seq_lib::to_multiset_len(s);
    vstd::seq_lib::to_multiset_len(t);
}

/// The values of `v` in ascending order.
pub fn sort_ascending(v: &Vec<u64>) -> (r: Vec<u64>)
    ensures
        as_ints(r@) == as_ints(v@).sort(),
        ascending(as_ints(r@)),
        r@.len() == v@.len(),
{
    let mut r: Vec<u64> = Vec::new();
    let mut i: usize = 0;
    assert(as_ints(v@).take(0) =~= as_ints(r@));
    while i < v.len()
        invariant
            i <= v@.len(),
            r@.len() == i,
            ascending(as_ints(r@)),
            as_ints(r@).to_multiset() == as_ints(v@).take(i as int).to_multiset(),
        decreases v@.len() - i,
    {
        let x: u64 = v[i];
        let mut p: usize = 0;
        while p < r.len() && r[p] <= x
            invariant
                p <= r@.len(),
                forall|j: int| 0 <= j < p ==> r@[j] <= x,
            decreases r@.len() - p,
        {
            p = p + 1;
        }
        let ghost before = r@;
        r.insert(p, x);
        proof {
            assert(as_ints(r@) =~= as_ints(before).insert(p as int, x as int));
            to_multiset_insert(as_ints(before), p as int, x as int);
            assert(as_ints(v@).take(i + 1) =~= as_ints(v@).take(i as int).push(x as int));
            to_multiset_build(as_ints(v@).take(i as int), x as int);
            assert forall|a: int, b: int| 0 <= a <= b < r@.len() implies as_ints(r@)[a] <= as_ints(
                r@,
            )[b] by {
                let aa = if a < p { a } else { a - 1 };
                let bb = if b < p { b } else { b - 1 };
                if a != p && b != p {
                    assert(as_ints(before)[aa] <= as_ints(before)[bb]);
                } else if a == p && b != p {
                    assert(as_ints(before)[p as int] <= as_ints(before)[bb]);
                }
            }
        }
        i = i + 1;
    }
    proof {
        assert(as_ints(v@).take(v@.len() as int) =~= as_ints(v@));
        lemma_ascending_is_sort(as_ints(r@), as_ints(v@));
    }
    r
}

/// The width at which levelling stops, looked for from `w` upward: the
/// first width at which the pooled mass, spread evenly over the window,
/// no longer reaches the next bucket, or the number of buckets where there
/// is no such width.
pub open spec fn window_from(s: Seq<int>, spread: int, w: int) -> int
    decreases s.len() - w,
{
    if w >= s.len() || total(s.take(w)) + spread <= w * s[w] {
        w
    } else {
        window_from(s, spread, w + 1)
    }
}

/// The outcome of levelling: `count` buckets, of which the lowest `width`
/// share the mass `pooled` evenly and the others keep their values, whose
/// squares sum to `rest_sq`; `total` is the sum of all values.
pub struct Leveling {
    pub count: int,
    pub width: int,
    pub pooled: int,
    pub rest_sq: int,
    pub total: int,
}

impl Leveling {
    /// The numerator of the variance of the levelled buckets, over `den`.
    pub open spec fn num(self) -> int {
        self.count * (self.pooled * self.pooled + self.width * self.rest_sq) - self.width * (
        self.total * self.total)
    }

    /// The denominator of the variance of the levelled buckets.
    pub open spec fn den(self) -> int {
        self.width * (self.count * self.count)
    }
}

/// Levelling of the ascending values `x` into `t` buckets. The `t` largest
/// values are the buckets; the others are the mass to spread. The mass
/// fills the lowest buckets up to a common height.
pub open spec fn leveling(x: Seq<int>, t: int) -> Leveling {
    let k = x.len() - t;
    let spread = total(x.take(k));
    let s = x.skip(k);
    let w = window_from(s, spread, 1);
    Leveling {
        count: t,
        width: w,
        pooled: total(s.take(w)) + spread,
        rest_sq: sum_sq(s.skip(w)),
        total: total(x),
    }
}

/// The lower bound for values in any order: the levelling of the values
/// sorted ascending.
pub open spec fn lower_bound(values: Seq<int>, t: int) -> Leveling {
    leveling(values.sort(), t)
}

/// The window is at least where the search for it starts, and no wider
/// than the buckets.
pub proof fn lemma_window_range(s: Seq<int>, spread: int, w: int)
    requires
        0 <= w <= s.len(),
    ensures
        w <= window_from(s, spread, w) <= s.len(),
        window_from(s, spread, w) < s.len() ==> total(s.take(window_from(s, spread, w))) + spread
            <= window_from(s, spread, w) * s[window_from(s, spread, w)],
    decreases s.len() - w,
{
    if w < s.len() && total(s.take(w)) + spread > w * s[w] {
        lemma_window_range(s, spread, w + 1);
    }
}

/// A product of two bounded factors is bounded by the product of the
/// bounds.
pub proof fn lemma_product_bound(a: int, b: int, amax: int, bmax: int)
    requires
        0 <= a <= amax,
        0 <= b <= bmax,
    ensures
        0 <= a * b <= amax * bmax,
{
    assert(0 <= a * b <= amax * bmax) by (nonlinear_arith)
        requires
            0 <= a <= amax,
            0 <= b <= bmax,
    ;
}

/// A product of two products, regrouped.
pub proof fn lemma_product_of_products(a: int, b: int, c: int, d: int)
    ensures
        (a * b) * (c * d) == a * (c * (b * d)),
{
    assert((a * b) * (c * d) == a * (c * (b * d))) by (nonlinear_arith);
}

/// The variance of buckets of which `w` share the mass `h` and `m` others
/// sum to `s`, with squares summing to `u`, is never negative.
pub proof fn lemma_level_numerator(w: int, m: int, h: int, s: int, u: int)
    requires
        w >= 1,
        m >= 0,
        h >= 0,
        s >= 0,
        u >= 0,
        s * s <= m * u,
    ensures
        (w + m) * (h * h + w * u) >= w * ((h + s) * (h + s)),
{
    let aa = h * h;
    let bb = s * s;
    let cc = h * s;
    let wu = w * u;
    let mu = m * u;
    assert((h + s) * (h + s) == aa + 2 * cc + bb) by (nonlinear_arith)
        requires
            aa == h * h,
            bb == s * s,
            cc == h * s,
    ;
    assert((w + m) * (aa + wu) == w * aa + m * aa + w * wu + m * wu) by (nonlinear_arith);
    assert(w * (aa + 2 * cc + bb) == w * aa + 2 * (w * cc) + w * bb) by (nonlinear_arith);
    assert(m * wu == w * mu) by (nonlinear_arith)
        requires
            wu == w * u,
            mu == m * u,
    ;
    assert(w * mu >= w * bb) by (nonlinear_arith)
        requires
            bb <= mu,
            w >= 1,
    ;
    let r = m * aa + w * wu - 2 * (w * cc);
    if m == 0 {
        assert(bb <= 0);
        assert(s == 0) by (nonlinear_arith)
            requires
                s >= 0,
                s * s <= 0,
        ;
        assert(cc == 0);
        assert(w * cc == 0);
        assert(m * aa == 0);
        assert(w * wu >= 0) by (nonlinear_arith)
            requires
                w >= 1,
                wu == w * u,
                u >= 0,
        ;
    } else {
        let d = m * h - w * s;
        assert(d * d >= 0) by (nonlinear_arith);
        let p = m * h;
        let q = w * s;
        assert(d * d == p * p - 2 * (p * q) + q * q) by (nonlinear_arith)
            requires
                d == p - q,
        ;
        lemma_product_of_products(m, h, m, h);
        lemma_product_of_products(w, s, w, s);
        lemma_product_of_products(m, h, w, s);
        assert(w * (w * mu) >= w * (w * bb)) by (nonlinear_arith)
            requires
                bb <= mu,
                w >= 1,
        ;
        assert(m * (w * wu) == w * (w * mu)) by (nonlinear_arith)
            requires
                wu == w * u,
                mu == m * u,
        ;
        assert(m * r == m * (m * aa) + m * (w * wu) - 2 * (m * (w * cc))) by (nonlinear_arith)
            requires
                r == m * aa + w * wu - 2 * (w * cc),
        ;
        assert(m * r >= 0);
        assert(r >= 0) by (nonlinear_arith)
            requires
                m * r >= 0,
                m >= 1,
        ;
    }
}

/// The shape of a levelling: the window is among the buckets, the mass
/// that it shares and the values of the other buckets make up the total,
/// and the shared mass, spread evenly, does not reach the next bucket.
pub proof fn lemma_leveling_shape(x: Seq<int>, t: int)
    requires
        forall|i: int| 0 <= i < x.len() ==> 0 <= x[i],
        1 <= t <= x.len(),
    ensures
        1 <= leveling(x, t).width <= t,
        0 <= leveling(x, t).pooled <= total(x),
        leveling(x, t).pooled + total(x.skip(x.len() - t).skip(leveling(x, t).width)) == total(x),
        leveling(x, t).width < t ==> leveling(x, t).pooled <= leveling(x, t).width * x[x.len() - t
            + leveling(x, t).width],
{
    let l = leveling(x, t);
    let n = x.len() as int;
    let k = n - t;
    let spread = total(x.take(k));
    let s = x.skip(k);
    let w = l.width;
    lemma_window_range(s, spread, 1);
    lemma_sum_split(x, k, ident());
    lemma_sum_split(s, w, ident());
    assert(s.take(w) =~= x.subrange(k, k + w));
    assert(s.skip(w) =~= x.subrange(k + w, n));
    assert(x.take(k) =~= x.subrange(0, k));
    lemma_subrange_bounds(x, 0, k);
    lemma_subrange_bounds(x, k, k + w);
    lemma_subrange_bounds(x, k + w, n);
    if w < t {
        assert(s[w] == x[k + w]);
    }
}

/// The parts of a levelling are within the ranges that the arithmetic of
/// the bound needs, and its variance is a valid fraction.
pub proof fn lemma_leveling_range(x: Seq<int>, t: int)
    requires
        forall|i: int| 0 <= i < x.len() ==> 0 <= x[i],
        1 <= t <= x.len() <= MAX_REGIONS,
        total(x) <= MAX_TOTAL,
    ensures
        1 <= leveling(x, t).width <= t,
        0 <= leveling(x, t).pooled <= total(x),
        0 <= leveling(x, t).rest_sq <= total(x) * total(x),
        0 <= leveling(x, t).num() <= NUM_LIMIT,
        0 < leveling(x, t).den() <= DEN_LIMIT,
        leveling(x, t).pooled + total(x.skip(x.len() - t).skip(leveling(x, t).width)) == total(x),
{
    let l = leveling(x, t);
    let n = x.len() as int;
    let k = n - t;
    let spread = total(x.take(k));
    let s = x.skip(k);
    let w = l.width;
    lemma_window_range(s, spread, 1);
    lemma_sum_split(x, k, ident());
    lemma_sum_split(s, w, ident());
    assert(s.take(w) =~= x.subrange(k, k + w));
    assert(s.skip(w) =~= x.subrange(k + w, n));
    assert(x.take(k) =~= x.subrange(0, k));
    lemma_subrange_bounds(x, 0, k);
    lemma_subrange_bounds(x, k, k + w);
    lemma_subrange_bounds(x, k + w, n);
    let h = l.pooled;
    let rest = total(s.skip(w));
    let u = l.rest_sq;
    let tt = total(x);
    assert(h + rest == tt);
    lemma_square_of_total(s.skip(w));
    assert(s.skip(w).len() == t - w);
    lemma_level_numerator(w, t - w, h, rest, u);
    assert(l.num() >= 0) by (nonlinear_arith)
        requires
            l.num() == t * (h * h + w * u) - w * (tt * tt),
            (w + (t - w)) * (h * h + w * u) >= w * ((h + rest) * (h + rest)),
            h + rest == tt,
    ;
    lemma_product_bound(tt, tt, 0xFFFF_FFFF, 0xFFFF_FFFF);
    lemma_product_bound(h, h, 0xFFFF_FFFF, 0xFFFF_FFFF);
    lemma_product_bound(w, u, 1024, 0xFFFF_FFFFint * 0xFFFF_FFFFint);
    lemma_product_bound(t, h * h + w * u, 1024, 1025int * (0xFFFF_FFFFint * 0xFFFF_FFFFint));
    lemma_product_bound(w, tt * tt, 1024, 0xFFFF_FFFFint * 0xFFFF_FFFFint);
    lemma_product_bound(t, t, 1024, 1024);
    lemma_product_bound(w, t * t, 1024, 1024int * 1024int);
    assert(l.den() > 0) by (nonlinear_arith)
        requires
            l.den() == w * (t * t),
            w >= 1,
            t >= 1,
    ;
    assert(1024 * (1025 * (0xFFFF_FFFF * 0xFFFF_FFFF)) <= 0x1_0000_0000_0000_0000_0000_0000int);
}

/// The bound for `t` buckets once the window `w` and the mass `h` that it
/// shares are known.
fn bound_for_window(sorted: &Vec<u64>, t: usize, w: usize, h: u64) -> (r: Ratio)
    requires
        1 <= t <= sorted@.len() <= MAX_REGIONS,
        total(as_ints(sorted@)) <= MAX_TOTAL,
        w == leveling(as_ints(sorted@), t as int).width,
        h == leveling(as_ints(sorted@), t as int).pooled,
    ensures
        r.wf(),
        r.num == leveling(as_ints(sorted@), t as int).num(),
        r.den == leveling(as_ints(sorted@), t as int).den(),
{
    let ghost x = as_ints(sorted@);
    let ghost l = leveling(x, t as int);
    let n: usize = sorted.len();
    let k: usize = n - t;
    proof {
        lemma_leveling_range(x, t as int);
        assert(x.skip(k as int).skip(w as int) =~= x.subrange(k + w, n as int));
        assert(x.subrange(0, n as int) =~= x);
    }
    let u: u128 = range_sum_sq(sorted, k + w, n);
    let tt: u128 = range_total(sorted, 0, n) as u128;
    let hh: u128 = h as u128;
    let ww: u128 = w as u128;
    let cc: u128 = t as u128;
    proof {
        lemma_product_bound(hh as int, hh as int, 0xFFFF_FFFF, 0xFFFF_FFFF);
        lemma_product_bound(ww as int, u as int, 1024, 0xFFFF_FFFFint * 0xFFFF_FFFFint);
        lemma_product_bound(cc as int, hh * hh + ww * u, 1024, 1025int * (0xFFFF_FFFFint * 0xFFFF_FFFFint));
        lemma_product_bound(tt as int, tt as int, 0xFFFF_FFFF, 0xFFFF_FFFF);
        lemma_product_bound(ww as int, tt * tt, 1024, 0xFFFF_FFFFint * 0xFFFF_FFFFint);
        lemma_product_bound(cc as int, cc as int, 1024, 1024);
        lemma_product_bound(ww as int, cc * cc, 1024, 1024int * 1024int);
        assert(l.num() == cc * (hh * hh + ww * u) - ww * (tt * tt));
        assert(l.den() == ww * (cc * cc));
    }
    Ratio { num: cc * (hh * hh + ww * u) - ww * (tt * tt), den: ww * (cc * cc) }
}

impl Country {
    /// The values of the regions in ascending order.
    pub fn sorted_values(&self) -> (v: Vec<u64>)
        ensures
            as_ints(v@) == self.values().sort(),
            ascending(as_ints(v@)),
            v@.len() == self.regions@.len(),
    {
        let v = self.gdp_values();
        assert(v@.len() == as_ints(v@).len());
        sort_ascending(&v)
    }

    /// The lower bound on the variance of any partition of the values into
    /// `target_count` clusters, by filling: the surface of the window is
    /// raised to the next bucket as long as the remaining mass allows, and
    /// what then remains is spread over the window. There is none where
    /// `target_count` is zero or above the number of regions.
    pub fn optimal_std_dev_sq(&self, target_count: usize) -> (r: Option<Ratio>)
        requires
            self.within_limits(),
        ensures
            r is None <==> target_count == 0 || target_count > self.regions@.len(),
            r is Some ==> r->0.wf() && r->0.num == lower_bound(
                self.values(),
                target_count as int,
            ).num() && r->0.den == lower_bound(self.values(), target_count as int).den(),
    {
        let n: usize = self.regions.len();
        if target_count == 0 || target_count > n {
            return None;
        }
        let sorted = self.sorted_values();
        let ghost x = as_ints(sorted@);
        let k: usize = n - target_count;
        proof {
            lemma_sort_is_ascending(self.values());
            lemma_sum_permutation(x, self.values(), ident());
            assert forall|i: int| 0 <= i < x.len() implies 0 <= x[i] by {
                assert(x[i] == sorted@[i]);
            }
            lemma_leveling_range(x, target_count as int);
            assert(x.take(k as int) =~= x.subrange(0, k as int));
            lemma_subrange_bounds(x, 0, k as int);
        }
        let spread: u64 = range_total(&sorted, 0, k);
        let ghost s = x.skip(k as int);
        let mut w: usize = 1;
        let mut height: u64 = sorted[k];
        let mut remaining: u64 = spread;
        proof {
            lemma_sum_single(s.take(1), ident());
            lemma_sum_split(x, k as int, ident());
            assert forall|i: int| 0 <= i < s.len() implies 0 <= s[i] by {
                assert(s[i] == x[k + i]);
            }
            lemma_total_bounds(s);
            assert(s[0] == x[k as int]);
            assert(s.take(1)[0] == x[k as int]);
            assert(height * w == height) by (nonlinear_arith)
                requires
                    w == 1,
            ;
        }
        while w < target_count
            invariant
                1 <= w <= target_count <= n,
                n == sorted@.len(),
                n <= MAX_REGIONS,
                k == n - target_count,
                x == as_ints(sorted@),
                ascending(x),
                s == x.skip(k as int),
                total(x) <= MAX_TOTAL,
                forall|i: int| 0 <= i < x.len() ==> 0 <= x[i],
                spread == total(x.take(k as int)),
                height == s[w - 1],
                height * w + remaining == total(s.take(w as int)) + spread,
                total(s.take(w as int)) + spread <= total(x),
                window_from(s, spread as int, 1) == window_from(s, spread as int, w as int),
            ensures
                1 <= w <= target_count,
                w == window_from(s, spread as int, 1),
                height * w + remaining == total(s.take(w as int)) + spread,
                total(s.take(w as int)) + spread <= total(x),
            decreases target_count - w,
        {
            let next: u64 = sorted[k + w];
            proof {
                assert(s[w as int] == x[k + w]);
                assert(s[w - 1] == x[k + w - 1]);
                lemma_total_bounds(x);
                lemma_product_bound(next - height, w as int, 0xFFFF_FFFF, 1024);
            }
            let need: u64 = (next - height) * (w as u64);
            proof {
                assert((next - height) * w == w * next - height * w) by (nonlinear_arith);
            }
            if need >= remaining {
                break;
            }
            proof {
                assert(s.take(w + 1).drop_last() =~= s.take(w as int));
                assert(s.take(w + 1) =~= x.subrange(k as int, k + w + 1));
                lemma_subrange_bounds(x, k as int, k + w + 1);
                lemma_subrange_bounds(x, 0, k as int);
                assert(x.take(k as int) =~= x.subrange(0, k as int));
                lemma_sum_split(x, k as int, ident());
                lemma_sum_split(s, w + 1, ident());
                lemma_total_bounds(s.skip(w + 1));
                assert(next * (w + 1) == w * next + next) by (nonlinear_arith);
            }
            remaining = remaining - need;
            height = next;
            w = w + 1;
        }
        proof {
            lemma_product_bound(height as int, w as int, 0xFFFF_FFFF, 1024);
        }
        Some(bound_for_window(&sorted, target_count, w, height * (w as u64) + remaining))
    }

    /// The lower bound on the variance of any partition of the values into
    /// `target_count` clusters, by prefix sums: the window grows while the
    /// mass, spread over it, still reaches the next bucket. There is none
    /// where `target_count` is zero or above the number of regions.
    pub fn optimal_std_dev_sq2(&self, target_count: usize) -> (r: Option<Ratio>)
        requires
            self.within_limits(),
        ensures
            r is None <==> target_count == 0 || target_count > self.regions@.len(),
            r is Some ==> r->0.wf() && r->0.num == lower_bound(
                self.values(),
                target_count as int,
            ).num() && r->0.den == lower_bound(self.values(), target_count as int).den(),
    {
        let n: usize = self.regions.len();
        if target_count == 0 || target_count > n {
            return None;
        }
        let sorted = self.sorted_values();
        let ghost x = as_ints(sorted@);
        let k: usize = n - target_count;
        proof {
            lemma_sort_is_ascending(self.values());
            lemma_sum_permutation(x, self.values(), ident());
            assert forall|i: int| 0 <= i < x.len() implies 0 <= x[i] by {
                assert(x[i] == sorted@[i]);
            }
            lemma_leveling_range(x, target_count as int);
            assert(x.take(k as int) =~= x.subrange(0, k as int));
            lemma_subrange_bounds(x, 0, k as int);
        }
        let spread: u64 = range_total(&sorted, 0, k);
        let ghost s = x.skip(k as int);
        let mut w: usize = 1;
        let mut sum: u64 = sorted[k];
        proof {
            lemma_sum_single(s.take(1), ident());
            lemma_sum_split(x, k as int, ident());
            assert forall|i: int| 0 <= i < s.len() implies 0 <= s[i] by {
                assert(s[i] == x[k + i]);
            }
            lemma_total_bounds(s);
            assert(s[0] == x[k as int]);
            assert(s.take(1)[0] == x[k as int]);
            lemma_subrange_bounds(x, k as int, k + 1);
            assert(s.take(1) =~= x.subrange(k as int, k + 1));
            lemma_total_bounds(x);
        }
        while w < target_count && sum + spread > (w as u64) * sorted[k + w]
            invariant
                1 <= w <= target_count <= n,
                n == sorted@.len(),
                n <= MAX_REGIONS,
                k == n - target_count,
                x == as_ints(sorted@),
                s == x.skip(k as int),
                total(x) <= MAX_TOTAL,
                forall|i: int| 0 <= i < x.len() ==> 0 <= x[i],
                spread == total(x.take(k as int)),
                sum == total(s.take(w as int)),
                sum + spread <= total(x),
                window_from(s, spread as int, 1) == window_from(s, spread as int, w as int),
                w < target_count ==> (w as u64) * sorted[k + w] <= u64::MAX,
            decreases target_count - w,
        {
            proof {
                assert(s.take(w + 1).drop_last() =~= s.take(w as int));
                assert(s.take(w + 1) =~= x.subrange(k as int, k + w + 1));
                lemma_subrange_bounds(x, k as int, k + w + 1);
                lemma_subrange_bounds(x, 0, k as int);
                assert(x.take(k as int) =~= x.subrange(0, k as int));
                lemma_sum_split(x, k as int, ident());
                lemma_sum_split(s, w + 1, ident());
                lemma_total_bounds(s.skip(w + 1));
                assert(s[w as int] == x[k + w]);
                lemma_total_bounds(x);
                if w + 1 < target_count {
                    lemma_product_bound(w + 1, x[k + w + 1], 1024, 0xFFFF_FFFF);
                }
            }
            sum = sum + sorted[k + w];
            w = w + 1;
        }
        Some(bound_for_window(&sorted, target_count, w, sum + spread))
    }
}

/// Without excess the bound is the variance: the levelling of ascending
/// values into as many buckets as there are values is their variance.
pub proof fn lemma_leveling_without_excess(x: Seq<int>)
    requires
        ascending(x),
        forall|i: int| 0 <= i < x.len() ==> 0 <= x[i],
        x.len() >= 1,
    ensures
        leveling(x, x.len() as int).num() == variance_num(x),
        leveling(x, x.len() as int).den() == variance_den(x),
{
    let n = x.len() as int;
    let l = leveling(x, n);
    assert(x.take(0) =~= Seq::<int>::empty());
    assert(x.skip(0) =~= x);
    lemma_sum_single(x.take(1), ident());
    assert(x.take(1)[0] == x[0]);
    if n > 1 {
        assert(total(x.take(1)) + 0 <= 1 * x[1]);
    }
    assert(l.width == 1);
    assert(l.pooled == x[0]);
    lemma_sum_first(x, square());
    assert(sum_sq(x) == x[0] * x[0] + l.rest_sq);
    assert(l.num() == variance_num(x)) by (nonlinear_arith)
        requires
            l.num() == n * (l.pooled * l.pooled + 1 * l.rest_sq) - 1 * (total(x) * total(x)),
            variance_num(x) == n * sum_sq(x) - total(x) * total(x),
            sum_sq(x) == x[0] * x[0] + l.rest_sq,
            l.pooled == x[0],
    ;
    assert(l.den() == variance_den(x)) by (nonlinear_arith)
        requires
            l.den() == 1 * (n * n),
            variance_den(x) == n * n,
    ;
}

/// Without excess the bound of any values is their variance.
pub proof fn lemma_bound_without_excess(values: Seq<int>)
    requires
        forall|i: int| 0 <= i < values.len() ==> 0 <= values[i],
        values.len() >= 1,
    ensures
        lower_bound(values, values.len() as int).num() == variance_num(values),
        lower_bound(values, values.len() as int).den() == variance_den(values),
{
    let x = values.sort();
    lemma_sort_is_ascending(values);
    assert forall|i: int| 0 <= i < x.len() implies 0 <= x[i] by {
        let v = x[i];
        vstd::seq_lib::to_multiset_contains(x, v);
        vstd::seq_lib::to_multiset_contains(values, v);
        assert(x.contains(v));
    }
    lemma_leveling_without_excess(x);
    lemma_variance_permutation(x, values);
}

} // verus!
