//! Sums over sequences of values, and the facts about them that the
//! statistics rest on.

use vstd::prelude::*;
use vstd::seq_lib::to_multiset_remove;
use vstd::seq_lib::to_multiset_len;
use vstd::seq_lib::to_multiset_contains;

verus! {

/// The sum of `f` over the items of `s`.
pub open spec fn seq_sum(s: Seq<int>, f: spec_fn(int) -> int) -> int
    decreases s.len(),
{
    if s.len() == 0 {
        0
    } else {
        seq_sum(s.drop_last(), f) + f(s.last())
    }
}

/// The function that returns its argument.
pub open spec fn ident() -> spec_fn(int) -> int {
    |x: int| x
}

/// The function that squares its argument.
pub open spec fn square() -> spec_fn(int) -> int {
    |x: int| x * x
}

/// The sum of the items.
pub open spec fn total(s: Seq<int>) -> int {
    seq_sum(s, ident())
}

/// The sum of the squares of the items.
pub open spec fn sum_sq(s: Seq<int>) -> int {
    seq_sum(s, square())
}

/// A sum grows by `f(x)` when `x` is appended.
pub proof fn lemma_sum_push(s: Seq<int>, x: int, f: spec_fn(int) -> int)
    ensures
        seq_sum(s.push(x), f) == seq_sum(s, f) + f(x),
{
    assert(s.push(x).drop_last() =~= s);
}

/// The sum over a single item.
pub proof fn lemma_sum_single(s: Seq<int>, f: spec_fn(int) -> int)
    requires
        s.len() == 1,
    ensures
        seq_sum(s, f) == f(s[0]),
{
    assert(s.drop_last().len() == 0);
    assert(seq_sum(s.drop_last(), f) == 0);
}

/// A sum is `f` of the first item plus the sum over the others.
pub proof fn lemma_sum_first(s: Seq<int>, f: spec_fn(int) -> int)
    requires
        s.len() > 0,
    ensures
        seq_sum(s, f) == f(s[0]) + seq_sum(s.skip(1), f),
{
    lemma_sum_remove(s, 0, f);
    assert(s.remove(0) =~= s.skip(1));
}

/// A sum shrinks by `f(s[i])` when item `i` is taken out.
pub proof fn lemma_sum_remove(s: Seq<int>, i: int, f: spec_fn(int) -> int)
    requires
        0 <= i < s.len(),
    ensures
        seq_sum(s, f) == seq_sum(s.remove(i), f) + f(s[i]),
    decreases s.len(),
{
    if i == s.len() - 1 {
        assert(s.remove(i) =~= s.drop_last());
    } else {
        lemma_sum_remove(s.drop_last(), i, f);
        assert(s.remove(i).drop_last() =~= s.drop_last().remove(i));
        assert(s.remove(i).last() == s.last());
    }
}

/// A sum does not depend on the order of the items.
pub proof fn lemma_sum_permutation(s1: Seq<int>, s2: Seq<int>, f: spec_fn(int) -> int)
    requires
        s1.to_multiset() == s2.to_multiset(),
    ensures
        seq_sum(s1, f) == seq_sum(s2, f),
    decreases s1.len(),
{
    to_multiset_len(s1);
    to_multiset_len(s2);
    if s1.len() > 0 {
        let x = s1.last();
        let n = s1.len() - 1;
        to_multiset_contains(s1, x);
        to_multiset_contains(s2, x);
        assert(s1[n] == x);
        assert(s1.contains(x));
        let j = choose|j: int| 0 <= j < s2.len() && s2[j] == x;
        to_multiset_remove(s1, n);
        to_multiset_remove(s2, j);
        lemma_sum_permutation(s1.remove(n), s2.remove(j), f);
        lemma_sum_remove(s1, n, f);
        lemma_sum_remove(s2, j, f);
    }
}

/// The squared distances of the items from any `x` sum to no less than
/// zero.
pub proof fn lemma_sum_of_squared_gaps(s: Seq<int>, x: int)
    ensures
        sum_sq(s) - 2 * x * total(s) + s.len() * x * x >= 0,
    decreases s.len(),
{
    if s.len() > 0 {
        let r = s.drop_last();
        let y = s.last();
        lemma_sum_of_squared_gaps(r, x);
        assert(sum_sq(s) == sum_sq(r) + y * y);
        assert(total(s) == total(r) + y);
        assert((y - x) * (y - x) >= 0) by (nonlinear_arith);
        assert(sum_sq(s) - 2 * x * total(s) + s.len() * x * x == (sum_sq(r) - 2 * x * total(r)
            + r.len() * x * x) + (y - x) * (y - x)) by (nonlinear_arith)
            requires
                sum_sq(s) == sum_sq(r) + y * y,
                total(s) == total(r) + y,
                s.len() == r.len() + 1,
        ;
    }
}

/// The square of a sum is at most the number of items times the sum of
/// their squares.
pub proof fn lemma_square_of_total(s: Seq<int>)
    ensures
        total(s) * total(s) <= s.len() * sum_sq(s),
    decreases s.len(),
{
    if s.len() > 0 {
        let r = s.drop_last();
        let y = s.last();
        lemma_square_of_total(r);
        lemma_sum_of_squared_gaps(r, y);
        assert(sum_sq(s) == sum_sq(r) + y * y);
        assert(total(s) == total(r) + y);
        assert(total(s) * total(s) <= s.len() * sum_sq(s)) by (nonlinear_arith)
            requires
                sum_sq(s) == sum_sq(r) + y * y,
                total(s) == total(r) + y,
                s.len() == r.len() + 1,
                total(r) * total(r) <= r.len() * sum_sq(r),
                sum_sq(r) - 2 * y * total(r) + r.len() * y * y >= 0,
        ;
    }
}

/// Items that are never negative have a sum that is never negative, and
/// none of them exceeds it.
pub proof fn lemma_total_bounds(s: Seq<int>)
    requires
        forall|i: int| 0 <= i < s.len() ==> 0 <= s[i],
    ensures
        0 <= total(s),
        forall|i: int| 0 <= i < s.len() ==> s[i] <= total(s),
    decreases s.len(),
{
    if s.len() > 0 {
        lemma_total_bounds(s.drop_last());
        assert forall|i: int| 0 <= i < s.len() implies s[i] <= total(s) by {
            if i < s.len() - 1 {
                assert(s.drop_last()[i] == s[i]);
            }
        }
    }
}

/// The sum of the squares of items that are never negative is at most the
/// square of their sum.
pub proof fn lemma_sum_sq_bound(s: Seq<int>)
    requires
        forall|i: int| 0 <= i < s.len() ==> 0 <= s[i],
    ensures
        0 <= sum_sq(s) <= total(s) * total(s),
    decreases s.len(),
{
    if s.len() > 0 {
        let r = s.drop_last();
        let y = s.last();
        lemma_sum_sq_bound(r);
        lemma_total_bounds(r);
        assert(sum_sq(s) == sum_sq(r) + y * y);
        assert(total(s) == total(r) + y);
        assert(0 <= sum_sq(s) <= total(s) * total(s)) by (nonlinear_arith)
            requires
                sum_sq(s) == sum_sq(r) + y * y,
                total(s) == total(r) + y,
                0 <= sum_sq(r) <= total(r) * total(r),
                0 <= total(r),
                0 <= y,
        ;
    } else {
        assert(total(s) * total(s) == 0);
    }
}

/// A sum is the sum over a prefix plus the sum over the rest.
pub proof fn lemma_sum_split(s: Seq<int>, i: int, f: spec_fn(int) -> int)
    requires
        0 <= i <= s.len(),
    ensures
        seq_sum(s, f) == seq_sum(s.take(i), f) + seq_sum(s.skip(i), f),
    decreases s.len(),
{
    if i == s.len() {
        assert(s.take(i) =~= s);
        assert(s.skip(i) =~= Seq::<int>::empty());
    } else {
        lemma_sum_split(s.drop_last(), i, f);
        assert(s.drop_last().take(i) =~= s.take(i));
        assert(s.drop_last().skip(i) =~= s.skip(i).drop_last());
        assert(s.skip(i).last() == s.last());
    }
}

/// A part of a sequence of items that are never negative has a sum, and a
/// sum of squares, that is not above that of the whole.
pub proof fn lemma_subrange_bounds(s: Seq<int>, from: int, to: int)
    requires
        forall|i: int| 0 <= i < s.len() ==> 0 <= s[i],
        0 <= from <= to <= s.len(),
    ensures
        0 <= total(s.subrange(from, to)) <= total(s),
        0 <= sum_sq(s.subrange(from, to)) <= total(s) * total(s),
{
    let part = s.subrange(from, to);
    lemma_sum_split(s, from, ident());
    lemma_sum_split(s.skip(from), to - from, ident());
    assert(s.skip(from).take(to - from) =~= part);
    lemma_total_bounds(s.take(from));
    lemma_total_bounds(s.skip(from).skip(to - from));
    lemma_total_bounds(part);
    lemma_sum_sq_bound(part);
    assert(total(part) * total(part) <= total(s) * total(s)) by (nonlinear_arith)
        requires
            0 <= total(part) <= total(s),
    ;
}

/// The numerator of the population variance of `s`, over the denominator
/// `variance_den(s)`.
pub open spec fn variance_num(s: Seq<int>) -> int {
    s.len() * sum_sq(s) - total(s) * total(s)
}

/// The denominator of the population variance of `s`.
pub open spec fn variance_den(s: Seq<int>) -> int {
    (s.len() * s.len()) as int
}

/// The population variance does not depend on the order of the values.
pub proof fn lemma_variance_permutation(s1: Seq<int>, s2: Seq<int>)
    requires
        s1.to_multiset() == s2.to_multiset(),
    ensures
        variance_num(s1) == variance_num(s2),
        variance_den(s1) == variance_den(s2),
        total(s1) == total(s2),
        sum_sq(s1) == sum_sq(s2),
{
    to_multiset_len(s1);
    to_multiset_len(s2);
    lemma_sum_permutation(s1, s2, ident());
    lemma_sum_permutation(s1, s2, square());
}

/// The population variance of equal values is zero.
pub proof fn lemma_variance_of_equal_values(s: Seq<int>, c: int)
    requires
        forall|i: int| 0 <= i < s.len() ==> s[i] == c,
    ensures
        variance_num(s) == 0,
        total(s) == s.len() * c,
        sum_sq(s) == s.len() * (c * c),
    decreases s.len(),
{
    if s.len() > 0 {
        let r = s.drop_last();
        lemma_variance_of_equal_values(r, c);
        assert(s.last() == c);
        assert(total(s) == s.len() * c) by (nonlinear_arith)
            requires
                total(s) == total(r) + c,
                total(r) == r.len() * c,
                s.len() == r.len() + 1,
        ;
        assert(sum_sq(s) == s.len() * (c * c)) by (nonlinear_arith)
            requires
                sum_sq(s) == sum_sq(r) + c * c,
                sum_sq(r) == r.len() * (c * c),
                s.len() == r.len() + 1,
        ;
        assert(variance_num(s) == 0) by (nonlinear_arith)
            requires
                variance_num(s) == s.len() * sum_sq(s) - total(s) * total(s),
                total(s) == s.len() * c,
                sum_sq(s) == s.len() * (c * c),
        ;
    } else {
        assert(total(s) * total(s) == 0);
        assert(s.len() * sum_sq(s) == 0);
    }
}

} // verus!
