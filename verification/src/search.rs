//! The search for the partition into a given number of clusters with the
//! smallest variance: branch and bound over the fusions of adjacent
//! regions.

use vstd::prelude::*;
use crate::admissible::lemma_bound_is_admissible;
use crate::admissible::lemma_country_values;
use crate::admissible::lemma_sorted_values;
use crate::admissible::model_bound;
use crate::admissible::model_variance_den;
use crate::admissible::model_variance_num;
use crate::admissible::sorted_values_of;
use crate::admissible::spread_le;
use crate::graph::partition_of;
use crate::relabel::lemma_ordered_fusions_reach_all;
use crate::bound::lower_bound;
use crate::connect::all_connected;
use crate::connect::lemma_connected_has_partition;
use crate::country::Country;
use crate::country::arena_names;
use crate::country::lemma_graph_of_at;
use crate::country::lemma_graph_of_size;
use crate::graph::Node;
use crate::graph::fusable;
use crate::graph::fuse_spec;
use crate::graph::fuses_to;
use crate::graph::lemma_fuse_preserves_validity;
use crate::graph::lemma_partition_after_step;
use crate::graph::lemma_partition_facts;
use crate::graph::lemma_partition_first_step;
use crate::graph::lemma_partition_of_itself;
use crate::graph::adjacent;
use crate::graph::graph_wf;
use crate::graph::ordered_partition_of;
use crate::ratio::Ratio;
use crate::ratio::beats;
use crate::ratio::best_wf;
use crate::ratio::frac_lt;
use crate::ratio::improves;
use crate::ratio::lemma_frac_le_transitive;
use crate::ratio::lemma_frac_lt_le;
use crate::ratio::lemma_no_worse_transitive;
use crate::ratio::no_worse;
use crate::sums::variance_den;
use crate::sums::variance_num;
use crate::sums::lemma_variance_permutation;
use crate::text::name_lt;

verus! {

/// The pair holds the identifier of the region at `at.0` and the
/// identifier at `at.1` in that region's list of neighbours.
pub open spec fn came_from(
    arena: Seq<crate::region::RegionView>,
    pair: (String, String),
    at: (int, int),
) -> bool {
    &&& 0 <= at.0 < arena.len()
    &&& 0 <= at.1 < arena[at.0].links.len()
    &&& pair.0@ == arena[at.0].name
    &&& pair.1@ == arena[at.0].links[at.1]
}

/// Whether a region named `name` is paired with its neighbour `link`.
pub open spec fn wanted(ordered: bool, name: Seq<char>, link: Seq<char>) -> bool {
    ordered ==> crate::text::lex_lt(name, link)
}

/// The variance of the values of `h` is strictly less than `best`, where
/// `None` stands for no value yet.
pub open spec fn model_beats(h: Map<Seq<char>, Node>, best: Option<Ratio>) -> bool {
    match best {
        None => true,
        Some(b) => frac_lt(
            model_variance_num(h),
            model_variance_den(h),
            b.num as int,
            b.den as int,
        ),
    }
}

/// `r` is the variance of the values of `h`.
pub open spec fn is_variance_of(r: Ratio, h: Map<Seq<char>, Node>) -> bool {
    r.num == model_variance_num(h) && r.den == model_variance_den(h)
}

/// The variance of a model with nodes has a positive denominator.
pub proof fn lemma_model_variance_den(h: Map<Seq<char>, Node>)
    requires
        h.dom().finite(),
        h.dom().len() >= 1,
    ensures
        model_variance_den(h) > 0,
{
    lemma_sorted_values(h);
    let n = sorted_values_of(h).len();
    assert(n * n > 0) by (nonlinear_arith)
        requires
            n >= 1,
    ;
}

/// A model that does not beat a best value does not beat a better one.
pub proof fn lemma_still_not_beaten(h: Map<Seq<char>, Node>, old: Option<Ratio>, new: Option<Ratio>)
    requires
        !model_beats(h, old),
        no_worse(new, old),
        model_variance_den(h) > 0,
        old is Some ==> old->0.wf(),
        new is Some ==> new->0.wf(),
    ensures
        !model_beats(h, new),
{
    lemma_frac_le_transitive(
        new->0.num as int,
        new->0.den as int,
        old->0.num as int,
        old->0.den as int,
        model_variance_num(h),
        model_variance_den(h),
    );
}

/// A model that beats a best value beats every best value that was no
/// better.
pub proof fn lemma_beats_earlier(h: Map<Seq<char>, Node>, old: Option<Ratio>, new: Option<Ratio>)
    requires
        model_beats(h, new),
        no_worse(new, old),
        model_variance_den(h) > 0,
        old is Some ==> old->0.wf(),
        new is Some ==> new->0.wf(),
    ensures
        model_beats(h, old),
{
    if old is Some {
        lemma_frac_lt_le(
            model_variance_num(h),
            model_variance_den(h),
            new->0.num as int,
            new->0.den as int,
            old->0.num as int,
            old->0.den as int,
        );
    }
}

/// The variance that a country computes is the variance of its model, and
/// its lower bound is the lower bound of its model.
pub proof fn lemma_country_statistics(c: Country, t: int)
    requires
        c.inv(),
    ensures
        variance_num(c.values()) == model_variance_num(c@),
        variance_den(c.values()) == model_variance_den(c@),
        lower_bound(c.values(), t) == model_bound(c@, t),
{
    lemma_country_values(c);
    lemma_graph_of_size(c.arena());
    lemma_sorted_values(c@);
    lemma_variance_permutation(c.values(), sorted_values_of(c@));
}

/// No partition of a country whose lower bound does not beat the best
/// value beats it.
pub proof fn lemma_pruning_is_sound(
    g: Map<Seq<char>, Node>,
    h: Map<Seq<char>, Node>,
    t: nat,
    bound: Ratio,
    best: Option<Ratio>,
)
    requires
        graph_wf(g),
        t >= 1,
        ordered_partition_of(g, h, t),
        bound.wf(),
        bound.num == model_bound(g, t as int).num(),
        bound.den == model_bound(g, t as int).den(),
        best is Some ==> best->0.wf(),
        !beats(bound, best),
    ensures
        !model_beats(h, best),
{
    lemma_partition_facts(g, h, t, true);
    lemma_bound_is_admissible(g, h, t);
    lemma_frac_le_transitive(
        best->0.num as int,
        best->0.den as int,
        bound.num as int,
        bound.den as int,
        model_variance_num(h),
        model_variance_den(h),
    );
}

/// Where no partition that ordered fusions reach beats a best value, no
/// partition that fusions reach beats it.
pub proof fn lemma_nothing_beats(g: Map<Seq<char>, Node>, best: Option<Ratio>, t: nat)
    requires
        graph_wf(g),
        forall|h: Map<Seq<char>, Node>| #[trigger]
            ordered_partition_of(g, h, t) ==> !model_beats(h, best),
    ensures
        forall|h: Map<Seq<char>, Node>| #[trigger] partition_of(g, h, t) ==> !model_beats(h, best),
{
    assert forall|h: Map<Seq<char>, Node>| #[trigger] partition_of(g, h, t) implies !model_beats(
        h,
        best,
    ) by {
        let like = lemma_ordered_fusions_reach_all(g, h, t);
        assert(!model_beats(like, best));
    }
}

impl Country {
    /// Every pair of adjacent regions, once: the region with the smaller
    /// identifier first.
    pub fn links(&self) -> (r: Vec<(String, String)>)
        requires
            self.wf(),
        ensures
            forall|i: int| 0 <= i < r@.len() ==> fusable(self@, (#[trigger] r@[i]).0@, r@[i].1@, true),
            forall|a: Seq<char>, b: Seq<char>| #[trigger]
                fusable(self@, a, b, true) ==> exists|i: int|
                    0 <= i < r@.len() && (#[trigger] r@[i]).0@ == a && r@[i].1@ == b,
            forall|i: int, j: int|
                0 <= i < j < r@.len() ==> !((#[trigger] r@[i]).0@ == (#[trigger] r@[j]).0@
                    && r@[i].1@ == r@[j].1@),
    {
        self.adjacent_pairs(true)
    }

    /// Every region paired with each of its neighbours. With `ordered`,
    /// only the pairs in which the region has the smaller identifier.
    pub fn adjacent_pairs(&self, ordered: bool) -> (r: Vec<(String, String)>)
        requires
            self.wf(),
        ensures
            forall|i: int|
                0 <= i < r@.len() ==> fusable(self@, (#[trigger] r@[i]).0@, r@[i].1@, ordered),
            forall|a: Seq<char>, b: Seq<char>| #[trigger]
                fusable(self@, a, b, ordered) ==> exists|i: int|
                    0 <= i < r@.len() && (#[trigger] r@[i]).0@ == a && r@[i].1@ == b,
            forall|i: int, j: int|
                0 <= i < j < r@.len() ==> !((#[trigger] r@[i]).0@ == (#[trigger] r@[j]).0@
                    && r@[i].1@ == r@[j].1@),
    {
        let mut r: Vec<(String, String)> = Vec::new();
        let ghost arena = self.arena();
        let ghost mut origin: Seq<(int, int)> = Seq::empty();
        let mut ri: usize = 0;
        while ri < self.regions.len()
            invariant
                ri <= self.regions@.len(),
                self.wf(),
                arena == self.arena(),
                origin.len() == r@.len(),
                forall|i: int| 0 <= i < r@.len() ==> came_from(arena, #[trigger] r@[i], origin[i]),
                forall|i: int| 0 <= i < origin.len() ==> (#[trigger] origin[i]).0 < ri,
                forall|i: int, j: int|
                    0 <= i < j < origin.len() ==> #[trigger] origin[i] != #[trigger] origin[j],
                forall|i: int| 0 <= i < r@.len() ==> fusable(self@, (#[trigger] r@[i]).0@, r@[i].1@, ordered),
                forall|p: int, q: int|
                    0 <= p < ri && 0 <= q < arena[p].links.len() && wanted(
                        ordered,
                        arena[p].name,
                        #[trigger] arena[p].links[q],
                    ) ==> exists|i: int|
                        0 <= i < r@.len() && (#[trigger] r@[i]).0@ == arena[p].name && r@[i].1@
                            == arena[p].links[q],
            decreases self.regions@.len() - ri,
        {
            let region = &self.regions[ri];
            let mut li: usize = 0;
            proof {
                lemma_graph_of_at(arena, ri as int);
                assert(region@ == arena[ri as int]);
            }
            while li < region.links.len()
                invariant
                    ri < self.regions@.len(),
                    li <= region.links@.len(),
                    self.wf(),
                    arena == self.arena(),
                    region@ == arena[ri as int],
                    self@.dom().contains(region@.name),
                    self@[region@.name].neighbors == region@.neighbors(),
                    origin.len() == r@.len(),
                    forall|i: int|
                        0 <= i < r@.len() ==> came_from(arena, #[trigger] r@[i], origin[i]),
                    forall|i: int|
                        0 <= i < origin.len() ==> (#[trigger] origin[i]).0 < ri || (origin[i].0
                            == ri && origin[i].1 < li),
                    forall|i: int, j: int|
                        0 <= i < j < origin.len() ==> #[trigger] origin[i] != #[trigger] origin[j],
                    forall|i: int|
                        0 <= i < r@.len() ==> fusable(self@, (#[trigger] r@[i]).0@, r@[i].1@, ordered),
                    forall|p: int, q: int|
                        0 <= p < ri && 0 <= q < arena[p].links.len() && wanted(
                            ordered,
                            arena[p].name,
                            #[trigger] arena[p].links[q],
                        ) ==> exists|i: int|
                            0 <= i < r@.len() && (#[trigger] r@[i]).0@ == arena[p].name && r@[i].1@
                                == arena[p].links[q],
                    forall|q: int|
                        0 <= q < li && wanted(
                            ordered,
                            region@.name,
                            #[trigger] region@.links[q],
                        ) ==> exists|i: int|
                            0 <= i < r@.len() && (#[trigger] r@[i]).0@ == region@.name && r@[i].1@
                                == region@.links[q],
                decreases region.links@.len() - li,
            {
                let link = &region.links[li];
                proof {
                    assert(region@.links[li as int] == link@);
                    assert(region@.neighbors().contains(link@));
                }
                if !ordered || name_lt(&region.name, link) {
                    let ghost before = r@;
                    r.push((region.name.clone(), link.clone()));
                    proof {
                        let earlier = origin;
                        origin = origin.push((ri as int, li as int));
                        assert forall|i: int| 0 <= i < r@.len() implies came_from(
                            arena,
                            #[trigger] r@[i],
                            origin[i],
                        ) by {
                            if i < before.len() {
                                assert(r@[i] == before[i]);
                                assert(origin[i] == earlier[i]);
                            }
                        }
                        assert forall|i: int, j: int| 0 <= i < j < origin.len() implies #[trigger] origin[i]
                            != #[trigger] origin[j] by {
                            assert(origin[i] == earlier[i]);
                            if j < earlier.len() {
                                assert(origin[j] == earlier[j]);
                            }
                        }
                        let last = before.len() as int;
                        assert(r@[last].0@ == region@.name && r@[last].1@ == link@);
                        assert forall|i: int| 0 <= i < r@.len() implies fusable(
                            self@,
                            (#[trigger] r@[i]).0@,
                            r@[i].1@,
                            ordered,
                        ) by {
                            if i < last {
                                assert(r@[i] == before[i]);
                            }
                        }
                        assert forall|p: int, q: int|
                            0 <= p < ri && 0 <= q < arena[p].links.len() && wanted(
                                ordered,
                                arena[p].name,
                                #[trigger] arena[p].links[q],
                            ) implies exists|i: int|
                            0 <= i < r@.len() && (#[trigger] r@[i]).0@ == arena[p].name && r@[i].1@
                                == arena[p].links[q] by {
                            let i = choose|i: int|
                                0 <= i < before.len() && (#[trigger] before[i]).0@ == arena[p].name
                                    && before[i].1@ == arena[p].links[q];
                            assert(r@[i] == before[i]);
                        }
                        assert forall|q: int|
                            0 <= q < li + 1 && wanted(
                                ordered,
                                region@.name,
                                #[trigger] region@.links[q],
                            ) implies exists|i: int|
                            0 <= i < r@.len() && (#[trigger] r@[i]).0@ == region@.name && r@[i].1@
                                == region@.links[q] by {
                            if q < li {
                                let i = choose|i: int|
                                    0 <= i < before.len() && (#[trigger] before[i]).0@
                                        == region@.name && before[i].1@ == region@.links[q];
                                assert(r@[i] == before[i]);
                            } else {
                                assert(r@[last].0@ == region@.name);
                            }
                        }
                    }
                }
                li = li + 1;
            }
            ri = ri + 1;
        }
        proof {
            assert forall|i: int, j: int| 0 <= i < j < r@.len() implies !((#[trigger] r@[i]).0@ == (
            #[trigger] r@[j]).0@ && r@[i].1@ == r@[j].1@) by {
                if r@[i].0@ == r@[j].0@ && r@[i].1@ == r@[j].1@ {
                    assert(came_from(arena, r@[i], origin[i]));
                    assert(came_from(arena, r@[j], origin[j]));
                    let names = arena_names(arena);
                    assert(names[origin[i].0] == names[origin[j].0]);
                    assert(origin[i].0 == origin[j].0);
                    assert(arena[origin[i].0].links.no_duplicates());
                    assert(origin[i].1 == origin[j].1);
                    assert(origin[i] == origin[j]);
                }
            }
            assert forall|a: Seq<char>, b: Seq<char>| #[trigger]
                fusable(self@, a, b, ordered) implies exists|i: int|
                0 <= i < r@.len() && (#[trigger] r@[i]).0@ == a && r@[i].1@ == b by {
                let names = arena_names(arena);
                let p = choose|p: int| 0 <= p < names.len() && names[p] == a;
                lemma_graph_of_at(arena, p);
                assert(arena[p].links.contains(b));
                let q = choose|q: int| 0 <= q < arena[p].links.len() && arena[p].links[q] == b;
                assert(wanted(ordered, arena[p].name, arena[p].links[q]));
            }
        }
        r
    }

    /// Branch and bound from this country down to `target_count` regions.
    /// `best_std_dev_sq_yet` is the smallest variance found so far, `None`
    /// where there is none yet. Each pair of adjacent regions is fused on a
    /// copy; the copy is searched only where its lower bound is strictly
    /// below the best variance. Returns the last partition found that is
    /// strictly better than all before it, and leaves its variance in
    /// `best_std_dev_sq_yet`; returns `None` and leaves the value as it
    /// was where there is no such partition.
    pub fn optimize3_quel_enfer(
        &self,
        target_count: usize,
        best_std_dev_sq_yet: &mut Option<Ratio>,
    ) -> (r: Option<Country>)
        requires
            self.wf(),
            best_wf(*old(best_std_dev_sq_yet)),
        ensures
            best_wf(*final(best_std_dev_sq_yet)),
            no_worse(*final(best_std_dev_sq_yet), *old(best_std_dev_sq_yet)),
            match r {
                Some(c) => c.wf() && ordered_partition_of(self@, c@, target_count as nat)
                    && *final(best_std_dev_sq_yet) is Some && is_variance_of(
                    (*final(best_std_dev_sq_yet))->0,
                    c@,
                ) && model_beats(c@, *old(best_std_dev_sq_yet)),
                None => *final(best_std_dev_sq_yet) == *old(best_std_dev_sq_yet),
            },
            target_count >= 1 ==> forall|h: Map<Seq<char>, Node>| #[trigger]
                ordered_partition_of(self@, h, target_count as nat) ==> !model_beats(
                    h,
                    *final(best_std_dev_sq_yet),
                ),
            target_count >= 1 ==> forall|h: Map<Seq<char>, Node>| #[trigger]
                partition_of(self@, h, target_count as nat) ==> !model_beats(
                    h,
                    *final(best_std_dev_sq_yet),
                ),
        decreases self.regions@.len(),
    {
        let n: usize = self.regions.len();
        let ghost g = self@;
        let ghost t = target_count as nat;
        let ghost entry = *best_std_dev_sq_yet;
        proof {
            lemma_graph_of_size(self.arena());
            lemma_country_statistics(*self, target_count as int);
        }
        if target_count > n || target_count == 0 {
            proof {
                if target_count >= 1 {
                    assert forall|h: Map<Seq<char>, Node>| #[trigger]
                        ordered_partition_of(g, h, t) implies !model_beats(h, entry) by {
                        lemma_partition_facts(g, h, t, true);
                    }
                    lemma_nothing_beats(g, entry, t);
                }
            }
            return None;
        }
        if target_count == n {
            let variance = self.std_dev_sq().unwrap();
            proof {
                lemma_model_variance_den(g);
                assert forall|h: Map<Seq<char>, Node>| #[trigger]
                    ordered_partition_of(g, h, t) implies h == g by {
                    lemma_partition_facts(g, h, t, true);
                }
            }
            if improves(&variance, best_std_dev_sq_yet) {
                *best_std_dev_sq_yet = Some(variance);
                let copy = self.clone();
                proof {
                    lemma_partition_of_itself(g, true);
                    assert(copy@ == g);
                    lemma_nothing_beats(g, *best_std_dev_sq_yet, t);
                }
                return Some(copy);
            } else {
                proof {
                    lemma_nothing_beats(g, *best_std_dev_sq_yet, t);
                }
                return None;
            }
        }
        let links = self.links();
        let mut found: Option<Country> = None;
        let mut i: usize = 0;
        while i < links.len()
            invariant
                i <= links@.len(),
                self.wf(),
                g == self@,
                t == target_count as nat,
                1 <= target_count < n,
                n == self.regions@.len(),
                n == g.dom().len(),
                best_wf(entry),
                best_wf(*best_std_dev_sq_yet),
                no_worse(*best_std_dev_sq_yet, entry),
                forall|k: int|
                    0 <= k < links@.len() ==> fusable(g, (#[trigger] links@[k]).0@, links@[k].1@, true),
                match found {
                    Some(c) => c.wf() && ordered_partition_of(g, c@, t) && *best_std_dev_sq_yet is Some
                        && is_variance_of((*best_std_dev_sq_yet)->0, c@) && model_beats(c@, entry),
                    None => *best_std_dev_sq_yet == entry,
                },
                forall|k: int, h: Map<Seq<char>, Node>|
                    0 <= k < i && #[trigger] ordered_partition_of(
                        fuse_spec(g, links@[k].0@, links@[k].1@),
                        h,
                        t,
                    ) ==> !model_beats(h, *best_std_dev_sq_yet),
            decreases links@.len() - i,
        {
            let ghost a = links@[i as int].0@;
            let ghost b = links@[i as int].1@;
            let ghost before = *best_std_dev_sq_yet;
            let mut cloned = self.clone();
            proof {
                assert(cloned@ == g);
                assert(fusable(g, a, b, true));
                lemma_fuse_preserves_validity(g, a, b);
            }
            cloned.fuse_regions((links[i].0.as_str(), links[i].1.as_str()));
            let ghost m = cloned@;
            proof {
                assert(m == fuse_spec(g, a, b));
                assert(fuses_to(g, m, true));
                lemma_country_statistics(cloned, target_count as int);
            }
            let bound = cloned.optimal_std_dev_sq2(target_count).unwrap();
            if improves(&bound, best_std_dev_sq_yet) {
                let result = cloned.optimize3_quel_enfer(target_count, best_std_dev_sq_yet);
                proof {
                    lemma_no_worse_transitive(*best_std_dev_sq_yet, before, entry);
                    if result is Some {
                        let c = result->0;
                        lemma_partition_after_step(g, m, c@, t, true);
                        lemma_partition_facts(m, c@, t, true);
                        lemma_model_variance_den(c@);
                        lemma_beats_earlier(c@, entry, before);
                    }
                }
                if result.is_some() {
                    found = result;
                }
            } else {
                proof {
                    assert forall|h: Map<Seq<char>, Node>| #[trigger]
                        ordered_partition_of(m, h, t) implies !model_beats(h, before) by {
                        lemma_pruning_is_sound(m, h, t, bound, before);
                    }
                }
            }
            proof {
                assert forall|k: int, h: Map<Seq<char>, Node>|
                    0 <= k < i + 1 && #[trigger] ordered_partition_of(
                        fuse_spec(g, links@[k].0@, links@[k].1@),
                        h,
                        t,
                    ) implies !model_beats(h, *best_std_dev_sq_yet) by {
                    let mk = fuse_spec(g, links@[k].0@, links@[k].1@);
                    assert(fusable(g, links@[k].0@, links@[k].1@, true));
                    lemma_fuse_preserves_validity(g, links@[k].0@, links@[k].1@);
                    lemma_partition_facts(mk, h, t, true);
                    lemma_model_variance_den(h);
                    if k < i {
                        lemma_still_not_beaten(h, before, *best_std_dev_sq_yet);
                    }
                }
            }
            i = i + 1;
        }
        proof {
            assert forall|h: Map<Seq<char>, Node>| #[trigger]
                ordered_partition_of(g, h, t) implies !model_beats(h, *best_std_dev_sq_yet) by {
                let first = lemma_partition_first_step(g, h, t, true);
                let k = choose|k: int|
                    0 <= k < links@.len() && (#[trigger] links@[k]).0@ == first.0 && links@[k].1@
                        == first.1;
                assert(ordered_partition_of(fuse_spec(g, links@[k].0@, links@[k].1@), h, t));
            }
            lemma_nothing_beats(g, *best_std_dev_sq_yet, t);
        }
        found
    }

    /// Fuses adjacent regions until `target_count` regions are left, so
    /// that the variance of their values is the smallest that fusions can
    /// reach. With as many regions as asked for, nothing changes. Fails,
    /// and changes nothing, where `target_count` is above the number of
    /// regions, or where no sequence of fusions leaves `target_count`
    /// regions.
    pub fn optimize3(&mut self, target_count: usize) -> (r: Result<(), ()>)
        requires
            old(self).wf(),
        ensures
            final(self).wf(),
            target_count == old(self).regions@.len() ==> r is Ok && final(self).arena() == old(
                self,
            ).arena(),
            target_count > old(self).regions@.len() ==> r is Err,
            target_count == 0 && old(self).regions@.len() > 0 ==> r is Err,
            r is Err ==> final(self).arena() == old(self).arena(),
            r is Ok <==> exists|h: Map<Seq<char>, Node>|
                partition_of(old(self)@, h, target_count as nat),
            all_connected(old(self)@) && 1 <= target_count <= old(self).regions@.len() ==> r is Ok,
            r is Ok ==> ordered_partition_of(old(self)@, final(self)@, target_count as nat),
            r is Ok ==> forall|h: Map<Seq<char>, Node>| #[trigger]
                partition_of(old(self)@, h, target_count as nat) ==> spread_le(final(self)@, h),
    {
        let n: usize = self.regions.len();
        let ghost g = self@;
        let ghost t = target_count as nat;
        proof {
            lemma_graph_of_size(self.arena());
            if all_connected(g) && 1 <= target_count <= n {
                let h = lemma_connected_has_partition(g, t);
                lemma_partition_facts(g, h, t, true);
                assert(partition_of(g, h, t));
            }
        }
        if target_count == n {
            proof {
                lemma_partition_of_itself(g, true);
                lemma_partition_of_itself(g, false);
                assert(partition_of(g, g, t));
                assert forall|h: Map<Seq<char>, Node>| #[trigger]
                    partition_of(g, h, t) implies spread_le(g, h) by {
                    lemma_partition_facts(g, h, t, false);
                }
            }
            return Ok(());
        }
        proof {
            assert forall|h: Map<Seq<char>, Node>|
                (target_count > n || target_count == 0) implies !partition_of(g, h, t) by {
                if partition_of(g, h, t) {
                    lemma_partition_facts(g, h, t, false);
                }
            }
        }
        if target_count > n {
            return Err(());
        }
        let mut best_std_dev_sq_yet: Option<Ratio> = None;
        let result = self.optimize3_quel_enfer(target_count, &mut best_std_dev_sq_yet);
        proof {
            if target_count >= 1 {
                assert forall|h: Map<Seq<char>, Node>| #[trigger] partition_of(g, h, t) implies result is Some
                    && spread_le(result->0@, h) by {
                    let like = lemma_ordered_fusions_reach_all(g, h, t);
                    assert(ordered_partition_of(g, like, t));
                    assert(!model_beats(like, best_std_dev_sq_yet));
                }
            }
            if result is Some {
                lemma_partition_facts(g, result->0@, t, true);
            }
        }
        match result {
            Some(c) => {
                *self = c;
                Ok(())
            },
            None => Err(()),
        }
    }
}

} // verus!
