//! Why the lower bound is admissible: no partition that fusions reach has
//! a smaller variance than the levelling of the values.

use vstd::prelude::*;
use vstd::multiset::Multiset;
use vstd::seq_lib::to_multiset_build;
use vstd::seq_lib::to_multiset_len;
use crate::bound::Leveling;
use crate::bound::ascending;
use crate::bound::lemma_ascending_is_sort;
use crate::country::Country;
use crate::country::lemma_arena_bag;
use crate::graph::Node;
use crate::graph::bag_of;
use crate::graph::fusable;
use crate::graph::fuse_spec;
use crate::graph::fuses_to;
use crate::graph::fusion_path;
use crate::graph::graph_wf;
use crate::graph::leads;
use crate::graph::lemma_fuse_preserves_validity;
use crate::graph::lemma_fuse_value_bag;
use crate::graph::lemma_path_is_valid;
use crate::graph::partition_of;
use crate::graph::value_bag;
use crate::graph::value_map;
use crate::bound::lemma_leveling_shape;
use crate::bound::lemma_sort_is_ascending;
use crate::bound::leveling;
use crate::ratio::frac_le;
use crate::sums::lemma_square_of_total;
use crate::sums::square;
use crate::sums::sum_sq;
use crate::sums::variance_den;
use crate::sums::variance_num;
use crate::sums::ident;
use crate::sums::lemma_sum_first;
use crate::sums::lemma_sum_permutation;
use crate::sums::lemma_sum_push;
use crate::sums::lemma_sum_split;
use crate::sums::seq_sum;
use crate::sums::total;

verus! {

/// What of a value lies above the level `theta`.
pub open spec fn above(theta: int) -> spec_fn(int) -> int {
    |v: int|
        if v > theta {
            v - theta
        } else {
            0
        }
}

/// The sum of the `m` last items: of the `m` largest, where the sequence
/// ascends.
pub open spec fn top(s: Seq<int>, m: int) -> int {
    total(s.skip(s.len() - m))
}

/// A sequence of items that are never negative.
pub open spec fn non_negative(s: Seq<int>) -> bool {
    forall|i: int| 0 <= i < s.len() ==> 0 <= s[i]
}

/// `ys` holds the values of `xs` with two of them replaced by their sum.
pub open spec fn merged(xs: Seq<int>, ys: Seq<int>) -> bool {
    exists|va: int, vb: int|
        0 <= va && 0 <= vb && #[trigger] ys.to_multiset().insert(va).insert(vb)
            == xs.to_multiset().insert(va + vb)
}

/// What lies above a level sums to no less than zero, and to no less than
/// the sum of the items less the level for each.
pub proof fn lemma_above_bounds(s: Seq<int>, theta: int)
    ensures
        seq_sum(s, above(theta)) >= 0,
        seq_sum(s, above(theta)) >= total(s) - s.len() * theta,
    decreases s.len(),
{
    if s.len() > 0 {
        lemma_above_bounds(s.drop_last(), theta);
        assert(s.len() * theta == s.drop_last().len() * theta + theta) by (nonlinear_arith)
            requires
                s.len() == s.drop_last().len() + 1,
        ;
    } else {
        assert(s.len() * theta == 0) by (nonlinear_arith)
            requires
                s.len() == 0,
        ;
    }
}

/// Where no item is below the level, what lies above it is the sum of the
/// items less the level for each.
pub proof fn lemma_above_exact(s: Seq<int>, theta: int)
    requires
        forall|i: int| 0 <= i < s.len() ==> theta <= s[i],
    ensures
        seq_sum(s, above(theta)) == total(s) - s.len() * theta,
    decreases s.len(),
{
    if s.len() > 0 {
        assert forall|i: int| 0 <= i < s.drop_last().len() implies theta <= s.drop_last()[i] by {
            assert(s.drop_last()[i] == s[i]);
        }
        lemma_above_exact(s.drop_last(), theta);
        assert(s.len() * theta == s.drop_last().len() * theta + theta) by (nonlinear_arith)
            requires
                s.len() == s.drop_last().len() + 1,
        ;
        assert(theta <= s[s.len() - 1]);
    } else {
        assert(s.len() * theta == 0) by (nonlinear_arith)
            requires
                s.len() == 0,
        ;
    }
}

/// Where no item is above the level, nothing lies above it.
pub proof fn lemma_above_nothing(s: Seq<int>, theta: int)
    requires
        forall|i: int| 0 <= i < s.len() ==> s[i] <= theta,
    ensures
        seq_sum(s, above(theta)) == 0,
    decreases s.len(),
{
    if s.len() > 0 {
        assert forall|i: int| 0 <= i < s.drop_last().len() implies s.drop_last()[i] <= theta by {
            assert(s.drop_last()[i] == s[i]);
        }
        lemma_above_nothing(s.drop_last(), theta);
        assert(s[s.len() - 1] <= theta);
    }
}

/// The sum of the `m` last items is at most `m` times any level plus what
/// lies above that level.
pub proof fn lemma_top_at_most(s: Seq<int>, m: int, theta: int)
    requires
        0 <= m <= s.len(),
    ensures
        top(s, m) <= m * theta + seq_sum(s, above(theta)),
{
    let k = s.len() - m;
    lemma_sum_split(s, k, above(theta));
    lemma_above_bounds(s.take(k), theta);
    lemma_above_bounds(s.skip(k), theta);
    assert(s.skip(k).len() == m);
}

/// In an ascending sequence the sum of the `m` last items is `m` times the
/// first of them plus what lies above it.
pub proof fn lemma_top_exact(s: Seq<int>, m: int)
    requires
        ascending(s),
        1 <= m <= s.len(),
    ensures
        top(s, m) == m * s[s.len() - m] + seq_sum(s, above(s[s.len() - m])),
{
    let k = s.len() - m;
    let theta = s[k];
    lemma_sum_split(s, k, above(theta));
    assert forall|i: int| 0 <= i < s.take(k).len() implies s.take(k)[i] <= theta by {
        assert(s.take(k)[i] == s[i]);
    }
    lemma_above_nothing(s.take(k), theta);
    assert forall|i: int| 0 <= i < s.skip(k).len() implies theta <= s.skip(k)[i] by {
        assert(s.skip(k)[i] == s[k + i]);
    }
    lemma_above_exact(s.skip(k), theta);
    assert(s.skip(k).len() == m);
}

/// What a merge does to a sum: the two values leave it and their sum
/// enters.
pub proof fn lemma_merge_sum(xs: Seq<int>, ys: Seq<int>, va: int, vb: int, f: spec_fn(int) -> int)
    requires
        ys.to_multiset().insert(va).insert(vb) == xs.to_multiset().insert(va + vb),
    ensures
        seq_sum(ys, f) + f(va) + f(vb) == seq_sum(xs, f) + f(va + vb),
{
    to_multiset_build(ys, va);
    to_multiset_build(ys.push(va), vb);
    to_multiset_build(xs, va + vb);
    lemma_sum_permutation(ys.push(va).push(vb), xs.push(va + vb), f);
    lemma_sum_push(ys, va, f);
    lemma_sum_push(ys.push(va), vb, f);
    lemma_sum_push(xs, va + vb, f);
}

/// A merge keeps the values non-negative, keeps their sum and takes one
/// value away.
pub proof fn lemma_merge_keeps(xs: Seq<int>, ys: Seq<int>)
    requires
        non_negative(xs),
        merged(xs, ys),
    ensures
        non_negative(ys),
        total(ys) == total(xs),
        ys.len() + 1 == xs.len(),
{
    let (va, vb) = choose|va: int, vb: int|
        0 <= va && 0 <= vb && #[trigger] ys.to_multiset().insert(va).insert(vb)
            == xs.to_multiset().insert(va + vb);
    lemma_merge_sum(xs, ys, va, vb, ident());
    to_multiset_len(xs);
    to_multiset_len(ys);
    to_multiset_len(ys.push(va).push(vb));
    to_multiset_len(xs.push(va + vb));
    to_multiset_build(ys, va);
    to_multiset_build(ys.push(va), vb);
    to_multiset_build(xs, va + vb);
    assert forall|i: int| 0 <= i < ys.len() implies 0 <= ys[i] by {
        let v = ys[i];
        vstd::seq_lib::to_multiset_contains(ys, v);
        vstd::seq_lib::to_multiset_contains(xs, v);
        assert(ys.contains(v));
        assert(ys.to_multiset().insert(va).insert(vb).count(v) > 0);
        if v != va + vb {
            assert(xs.to_multiset().count(v) > 0);
        }
    }
}

/// After a merge the `m` largest values sum to no less than before.
pub proof fn lemma_merge_raises_top(xs: Seq<int>, ys: Seq<int>, m: int)
    requires
        non_negative(xs),
        merged(xs, ys),
        0 <= m <= ys.len(),
    ensures
        top(ys.sort(), m) >= top(xs.sort(), m),
{
    let (va, vb) = choose|va: int, vb: int|
        0 <= va && 0 <= vb && #[trigger] ys.to_multiset().insert(va).insert(vb)
            == xs.to_multiset().insert(va + vb);
    lemma_merge_keeps(xs, ys);
    let xo = xs.sort();
    let yo = ys.sort();
    lemma_sort_is_ascending(xs);
    lemma_sort_is_ascending(ys);
    if m == 0 {
        assert(yo.skip(yo.len() - 0) =~= Seq::<int>::empty());
        assert(xo.skip(xo.len() - 0) =~= Seq::<int>::empty());
    } else {
        let theta = yo[yo.len() - m];
        assert(theta >= 0) by {
            let v = theta;
            vstd::seq_lib::to_multiset_contains(yo, v);
            vstd::seq_lib::to_multiset_contains(ys, v);
            assert(yo.contains(v));
        }
        lemma_top_exact(yo, m);
        lemma_top_at_most(xo, m, theta);
        lemma_sum_permutation(yo, ys, above(theta));
        lemma_sum_permutation(xo, xs, above(theta));
        lemma_merge_sum(xs, ys, va, vb, above(theta));
    }
}

/// The sum, from position `i` on, of each bucket times what the cluster
/// at its position holds beyond it.
pub open spec fn cross(s: Seq<int>, ys: Seq<int>, i: int) -> int
    decreases s.len() - i,
{
    if i < 0 || i >= s.len() {
        0
    } else {
        s[i] * (ys[i] - s[i]) + cross(s, ys, i + 1)
    }
}

/// The squares of the clusters from position `i` on sum to no less than
/// those of the buckets plus twice the cross sum.
pub proof fn lemma_squares_above_tangent(s: Seq<int>, ys: Seq<int>, i: int)
    requires
        s.len() == ys.len(),
        0 <= i <= s.len(),
    ensures
        sum_sq(ys.skip(i)) >= sum_sq(s.skip(i)) + 2 * cross(s, ys, i),
    decreases s.len() - i,
{
    if i < s.len() {
        lemma_squares_above_tangent(s, ys, i + 1);
        lemma_sum_first(ys.skip(i), square());
        lemma_sum_first(s.skip(i), square());
        assert(ys.skip(i).skip(1) =~= ys.skip(i + 1));
        assert(s.skip(i).skip(1) =~= s.skip(i + 1));
        let a = ys[i];
        let b = s[i];
        assert(a * a >= b * b + 2 * (b * (a - b))) by (nonlinear_arith)
        {
            assert((a - b) * (a - b) >= 0);
        }
        assert(ys.skip(i)[0] == a);
        assert(s.skip(i)[0] == b);
    }
}

/// Where the clusters from every later position on sum to no less than
/// the buckets from there on, the cross sum from `i` on is no less than
/// bucket `i` times what the clusters from `i` on hold beyond the buckets.
pub proof fn lemma_cross_at_least(s: Seq<int>, ys: Seq<int>, i: int)
    requires
        s.len() == ys.len(),
        ascending(s),
        0 <= i < s.len(),
        forall|j: int| i < j <= s.len() ==> total(#[trigger] ys.skip(j)) >= total(s.skip(j)),
    ensures
        cross(s, ys, i) >= s[i] * (total(ys.skip(i)) - total(s.skip(i))),
    decreases s.len() - i,
{
    lemma_sum_first(ys.skip(i), ident());
    lemma_sum_first(s.skip(i), ident());
    assert(ys.skip(i).skip(1) =~= ys.skip(i + 1));
    assert(s.skip(i).skip(1) =~= s.skip(i + 1));
    assert(ys.skip(i)[0] == ys[i]);
    assert(s.skip(i)[0] == s[i]);
    let e_next = total(ys.skip(i + 1)) - total(s.skip(i + 1));
    let e = total(ys.skip(i)) - total(s.skip(i));
    let d = ys[i] - s[i];
    assert(e == d + e_next);
    assert(e_next >= 0);
    if i + 1 < s.len() {
        lemma_cross_at_least(s, ys, i + 1);
        assert(s[i + 1] * e_next >= s[i] * e_next) by (nonlinear_arith)
            requires
                s[i + 1] >= s[i],
                e_next >= 0,
        ;
    } else {
        assert(ys.skip(i + 1) =~= Seq::<int>::empty());
        assert(s.skip(i + 1) =~= Seq::<int>::empty());
        assert(s[i] * e_next == 0) by (nonlinear_arith)
            requires
                e_next == 0,
        ;
    }
    assert(s[i] * e == s[i] * d + s[i] * e_next) by (nonlinear_arith)
        requires
            e == d + e_next,
    ;
    assert(cross(s, ys, i) == s[i] * d + cross(s, ys, i + 1));
    assert(cross(s, ys, i + 1) >= s[i] * e_next);
}

/// The heart of admissibility. Take ascending values `xs` and any `t`
/// ascending cluster values `ys` with the same total whose `m` largest sum
/// to no less than the `m` largest of `xs`, for every `m`. Then the
/// squares of the levelled buckets sum to no more than those of `ys`.
pub proof fn lemma_leveling_is_below(xs: Seq<int>, ys: Seq<int>, t: int)
    requires
        ascending(xs),
        non_negative(xs),
        ys.len() == t,
        1 <= t <= xs.len(),
        total(ys) == total(xs),
        forall|m: int| 0 <= m <= t ==> #[trigger] top(ys, m) >= top(xs, m),
    ensures
        leveling(xs, t).pooled * leveling(xs, t).pooled + leveling(xs, t).width * leveling(
            xs,
            t,
        ).rest_sq <= leveling(xs, t).width * sum_sq(ys),
{
    let l = leveling(xs, t);
    let n = xs.len() as int;
    let k = n - t;
    let s = xs.skip(k);
    let w = l.width;
    let h = l.pooled;
    let u = l.rest_sq;
    lemma_leveling_shape(xs, t);
    assert forall|j: int| 0 <= j <= t implies total(#[trigger] ys.skip(j)) >= total(s.skip(j)) by {
        assert(top(ys, t - j) >= top(xs, t - j));
        assert(ys.skip(ys.len() - (t - j)) =~= ys.skip(j));
        assert(xs.skip(xs.len() - (t - j)) =~= s.skip(j));
    }
    assert(ascending(s)) by {
        assert forall|i: int, j: int| 0 <= i <= j < s.len() implies s[i] <= s[j] by {
            assert(s[i] == xs[k + i] && s[j] == xs[k + j]);
        }
    }
    let e = total(ys.skip(w)) - total(s.skip(w));
    let y = total(ys.take(w));
    lemma_sum_split(ys, w, ident());
    lemma_sum_split(ys, w, square());
    assert(y == h - e);
    lemma_square_of_total(ys.take(w));
    assert(ys.take(w).len() == w);
    lemma_squares_above_tangent(s, ys, w);
    let c = cross(s, ys, w);
    assert(w * c >= h * e) by {
        if w < t {
            lemma_cross_at_least(s, ys, w);
            assert(s[w] == xs[k + w]);
            assert(w * c >= h * e) by (nonlinear_arith)
                requires
                    c >= s[w] * e,
                    h <= w * s[w],
                    e >= 0,
                    w >= 1,
            {
                assert(w * c >= w * (s[w] * e));
                assert((w * s[w]) * e >= h * e);
            }
        } else {
            assert(ys.skip(w) =~= Seq::<int>::empty());
            assert(s.skip(w) =~= Seq::<int>::empty());
            assert(e == 0);
            assert(c == 0);
            assert(w * c == 0 && h * e == 0) by (nonlinear_arith)
                requires
                    e == 0,
                    c == 0,
            ;
        }
    }
    let q1 = sum_sq(ys.take(w));
    let q2 = sum_sq(ys.skip(w));
    assert(y * y >= h * h - 2 * (h * e)) by (nonlinear_arith)
        requires
            y == h - e,
    {
        assert(e * e >= 0);
    }
    assert(w * q2 >= w * u + 2 * (w * c)) by (nonlinear_arith)
        requires
            q2 >= u + 2 * c,
            w >= 1,
    ;
    assert(w * sum_sq(ys) == w * q1 + w * q2) by (nonlinear_arith)
        requires
            sum_sq(ys) == q1 + q2,
    ;
}

/// The variance of the levelling is no more than the variance of any
/// such cluster values.
pub proof fn lemma_leveling_variance_is_below(xs: Seq<int>, ys: Seq<int>, t: int)
    requires
        ascending(xs),
        non_negative(xs),
        ys.len() == t,
        1 <= t <= xs.len(),
        total(ys) == total(xs),
        forall|m: int| 0 <= m <= t ==> #[trigger] top(ys, m) >= top(xs, m),
    ensures
        frac_le(leveling(xs, t).num(), leveling(xs, t).den(), variance_num(ys), variance_den(ys)),
{
    let l = leveling(xs, t);
    lemma_leveling_is_below(xs, ys, t);
    lemma_leveling_shape(xs, t);
    let w = l.width;
    let h = l.pooled;
    let u = l.rest_sq;
    let tt = l.total;
    let q = sum_sq(ys);
    let a = h * h + w * u;
    let b = w * q;
    assert(t * a <= t * b) by (nonlinear_arith)
        requires
            a <= b,
            t >= 1,
    ;
    let vn = variance_num(ys);
    assert(vn == t * q - tt * tt);
    assert(w * vn == t * b - w * (tt * tt)) by (nonlinear_arith)
        requires
            vn == t * q - tt * tt,
            b == w * q,
    ;
    assert(l.num() <= w * vn);
    assert(variance_den(ys) == t * t);
    assert(l.num() * (t * t) <= (w * vn) * (t * t)) by (nonlinear_arith)
        requires
            l.num() <= w * vn,
            t >= 1,
    ;
    assert((w * vn) * (t * t) == vn * (w * (t * t))) by (nonlinear_arith);
}

/// A finite map of values that are never negative has a sequence that
/// holds exactly its values.
pub proof fn lemma_bag_has_seq(m: Map<Seq<char>, int>) -> (s: Seq<int>)
    requires
        m.dom().finite(),
        forall|k: Seq<char>| m.dom().contains(k) ==> 0 <= #[trigger] m[k],
    ensures
        s.to_multiset() == bag_of(m),
        non_negative(s),
        s.len() == m.dom().len(),
    decreases m.dom().len(),
{
    if m.dom().len() == 0 {
        let s = Seq::<int>::empty();
        to_multiset_len(s);
        assert(s.to_multiset() =~= Multiset::<int>::empty());
        s
    } else {
        let k = m.dom().choose();
        let r = lemma_bag_has_seq(m.remove(k));
        to_multiset_build(r, m[k]);
        assert forall|i: int| 0 <= i < r.push(m[k]).len() implies 0 <= r.push(m[k])[i] by {
            if i < r.len() {
                assert(r.push(m[k])[i] == r[i]);
            }
        }
        r.push(m[k])
    }
}

/// The values of the nodes of a model, in ascending order.
pub open spec fn sorted_values_of(g: Map<Seq<char>, Node>) -> Seq<int> {
    choose|s: Seq<int>| ascending(s) && s.to_multiset() == value_bag(g)
}

/// What `sorted_values_of` is, for a model with finitely many nodes.
pub proof fn lemma_sorted_values(g: Map<Seq<char>, Node>)
    requires
        g.dom().finite(),
    ensures
        ascending(sorted_values_of(g)),
        sorted_values_of(g).to_multiset() == value_bag(g),
        non_negative(sorted_values_of(g)),
        sorted_values_of(g).len() == g.dom().len(),
{
    let vm = value_map(g);
    assert(vm.dom() =~= g.dom());
    let s = lemma_bag_has_seq(vm);
    lemma_sort_is_ascending(s);
    let o = s.sort();
    assert(ascending(o) && o.to_multiset() == value_bag(g));
    let sv = sorted_values_of(g);
    to_multiset_len(sv);
    to_multiset_len(s);
    assert forall|i: int| 0 <= i < sv.len() implies 0 <= sv[i] by {
        let v = sv[i];
        vstd::seq_lib::to_multiset_contains(sv, v);
        vstd::seq_lib::to_multiset_contains(s, v);
        assert(sv.contains(v));
    }
}

/// The values of a country, sorted, are the sorted values of its model.
pub proof fn lemma_country_values(c: Country)
    requires
        c.inv(),
    ensures
        c.values().sort() == sorted_values_of(c@),
        c.values().to_multiset() == value_bag(c@),
{
    lemma_arena_bag(c.arena());
    crate::country::lemma_graph_of_size(c.arena());
    lemma_sorted_values(c@);
    lemma_ascending_is_sort(sorted_values_of(c@), c.values());
}

/// One fusion merges two of the sorted values.
pub proof fn lemma_fusion_merges(g: Map<Seq<char>, Node>, h: Map<Seq<char>, Node>)
    requires
        graph_wf(g),
        fuses_to(g, h, false),
    ensures
        merged(sorted_values_of(g), sorted_values_of(h)),
{
    let (a, b) = choose|a: Seq<char>, b: Seq<char>|
        fusable(g, a, b, false) && h == #[trigger] fuse_spec(g, a, b);
    lemma_fuse_preserves_validity(g, a, b);
    lemma_fuse_value_bag(g, a, b);
    lemma_sorted_values(g);
    lemma_sorted_values(h);
    let va = g[a].value as int;
    let vb = g[b].value as int;
    assert(sorted_values_of(h).to_multiset().insert(va).insert(vb) == sorted_values_of(
        g,
    ).to_multiset().insert(va + vb));
}

/// Along a path of fusions the total of the values stays, and the `m`
/// largest values never sum to less than at the start.
pub proof fn lemma_path_raises_top(path: Seq<Map<Seq<char>, Node>>, i: int)
    requires
        path.len() >= 1,
        graph_wf(path[0]),
        fusion_path(path, false),
        0 <= i < path.len(),
    ensures
        total(sorted_values_of(path[i])) == total(sorted_values_of(path[0])),
        forall|m: int|
            0 <= m <= path[i].dom().len() ==> #[trigger] top(sorted_values_of(path[i]), m) >= top(
                sorted_values_of(path[0]),
                m,
            ),
    decreases i,
{
    if i > 0 {
        lemma_path_raises_top(path, i - 1);
        lemma_path_is_valid(path, i - 1);
        lemma_path_is_valid(path, i);
        let g = path[i - 1];
        let h = path[i];
        assert(fuses_to(g, h, false));
        lemma_fusion_merges(g, h);
        lemma_sorted_values(g);
        lemma_sorted_values(h);
        let xs = sorted_values_of(g);
        let ys = sorted_values_of(h);
        lemma_merge_keeps(xs, ys);
        lemma_ascending_is_sort(xs, xs);
        lemma_ascending_is_sort(ys, ys);
        assert forall|m: int| 0 <= m <= h.dom().len() implies #[trigger] top(ys, m) >= top(
            sorted_values_of(path[0]),
            m,
        ) by {
            lemma_merge_raises_top(xs, ys, m);
            assert(top(xs, m) >= top(sorted_values_of(path[0]), m));
        }
    }
}

/// The lower bound of a model for `t` clusters: the levelling of its
/// sorted values.
pub open spec fn model_bound(g: Map<Seq<char>, Node>, t: int) -> Leveling {
    leveling(sorted_values_of(g), t)
}

/// The numerator of the population variance of the values of a model.
pub open spec fn model_variance_num(g: Map<Seq<char>, Node>) -> int {
    variance_num(sorted_values_of(g))
}

/// The denominator of the population variance of the values of a model.
pub open spec fn model_variance_den(g: Map<Seq<char>, Node>) -> int {
    variance_den(sorted_values_of(g))
}

/// The variance of the values of `g` is at most that of the values of
/// `h`.
pub open spec fn spread_le(g: Map<Seq<char>, Node>, h: Map<Seq<char>, Node>) -> bool {
    frac_le(
        model_variance_num(g),
        model_variance_den(g),
        model_variance_num(h),
        model_variance_den(h),
    )
}

/// Admissibility: the lower bound of a valid model for `t` clusters is at
/// most the variance of every partition into `t` clusters that fusions of
/// adjacent regions reach from it.
pub proof fn lemma_bound_is_admissible(
    g: Map<Seq<char>, Node>,
    h: Map<Seq<char>, Node>,
    t: nat,
)
    requires
        graph_wf(g),
        t >= 1,
        partition_of(g, h, t),
    ensures
        frac_le(
            model_bound(g, t as int).num(),
            model_bound(g, t as int).den(),
            model_variance_num(h),
            model_variance_den(h),
        ),
        model_bound(g, t as int).den() > 0,
        model_variance_den(h) > 0,
{
    let path = choose|path: Seq<Map<Seq<char>, Node>>| leads(path, g, h, false);
    let last = path.len() - 1;
    lemma_path_is_valid(path, last);
    lemma_path_raises_top(path, last);
    lemma_sorted_values(g);
    lemma_sorted_values(h);
    let xs = sorted_values_of(g);
    let ys = sorted_values_of(h);
    lemma_leveling_variance_is_below(xs, ys, t as int);
    lemma_leveling_shape(xs, t as int);
    let w = leveling(xs, t as int).width;
    assert(w * (t * t) > 0) by (nonlinear_arith)
        requires
            w >= 1,
            t >= 1,
    ;
    assert(t * t > 0) by (nonlinear_arith)
        requires
            t >= 1,
    ;
}

} // verus!
