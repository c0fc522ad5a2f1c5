//! The exhaustive search: every sequence of fusions is tried, the
//! branches side by side, and the partition with the smallest variance is
//! kept. It is exponential; the pruned search is held against it.

use vstd::prelude::*;
use crate::admissible::model_variance_den;
use crate::admissible::spread_le;
use crate::admissible::model_variance_num;
use crate::connect::all_connected;
use crate::connect::lemma_connected_has_partition;
use crate::country::Country;
use crate::country::lemma_graph_of_size;
use crate::graph::Node;
use crate::graph::fusable;
use crate::graph::fuse_spec;
use crate::graph::fuses_to;
use crate::graph::graph_wf;
use crate::graph::lemma_fuse_preserves_validity;
use crate::graph::lemma_partition_after_step;
use crate::graph::lemma_partition_facts;
use crate::graph::lemma_partition_first_step;
use crate::graph::lemma_partition_of_itself;
use crate::graph::partition_in;
use crate::graph::partition_of;
use crate::relabel::lemma_ordered_fusions_reach_all;
use crate::parallel::best_branch;
use crate::ratio::lemma_frac_le_transitive;
use crate::search::lemma_model_variance_den;

verus! {

/// `o` is a partition of `g` into `t` clusters with the smallest variance
/// among those that fusions reach, or `None` where fusions reach none.
pub open spec fn best_partition(
    g: Map<Seq<char>, Node>,
    o: Option<Country>,
    t: nat,
    ordered: bool,
) -> bool {
    match o {
        Some(d) => d.wf() && partition_in(g, d@, t, ordered) && forall|h: Map<Seq<char>, Node>| #[trigger]
            partition_in(g, h, t, ordered) ==> spread_le(d@, h),
        None => forall|h: Map<Seq<char>, Node>| !#[trigger] partition_in(g, h, t, ordered),
    }
}

/// `o` is a best partition of the country `c` after the fusion of the
/// pair `link`.
pub open spec fn branch_outcome(
    c: Country,
    link: (String, String),
    target_count: usize,
    ordered: bool,
    o: Option<Country>,
) -> bool {
    best_partition(fuse_spec(c@, link.0@, link.1@), o, target_count as nat, ordered)
}

/// Where `o` is a country, `r` is one too, and its variance is at most
/// that of `o`.
pub open spec fn not_better(o: Option<Country>, r: Option<Country>) -> bool {
    o is Some ==> r is Some && spread_le(r->0@, o->0@)
}

/// The branch of `link` has an outcome that is not better than `r`.
pub open spec fn has_outcome(
    c: Country,
    link: (String, String),
    target_count: usize,
    ordered: bool,
    r: Option<Country>,
) -> bool {
    exists|o: Option<Country>| #[trigger]
        branch_outcome(c, link, target_count, ordered, o) && not_better(o, r)
}

/// A best partition among those that ordered fusions reach is a best
/// partition among all that fusions reach, and there is one of the first
/// kind where there is one of the second.
pub proof fn lemma_best_of_all(g: Map<Seq<char>, Node>, o: Option<Country>, t: nat, ordered: bool)
    requires
        graph_wf(g),
        best_partition(g, o, t, ordered),
    ensures
        o is Some ==> partition_of(g, o->0@, t) && forall|h: Map<Seq<char>, Node>| #[trigger]
            partition_of(g, h, t) ==> spread_le(o->0@, h),
        o is None ==> forall|h: Map<Seq<char>, Node>| !#[trigger] partition_of(g, h, t),
{
    if o is Some {
        lemma_partition_facts(g, o->0@, t, ordered);
    }
    assert forall|h: Map<Seq<char>, Node>| #[trigger] partition_of(g, h, t) implies o is Some
        && spread_le(o->0@, h) by {
        if ordered {
            let like = lemma_ordered_fusions_reach_all(g, h, t);
            assert(partition_in(g, like, t, ordered));
            assert(spread_le(o->0@, like));
        } else {
            assert(partition_in(g, h, t, ordered));
        }
    }
}

impl Country {
    /// One branch of the exhaustive search: the best partition of this
    /// country after the fusion of the pair `link`.
    pub fn explore_branch(&self, link: &(String, String), target_count: usize, ordered: bool) -> (r:
        Option<Country>)
        requires
            self.wf(),
            fusable(self@, link.0@, link.1@, false),
        ensures
            branch_outcome(*self, *link, target_count, ordered, r),
    {
        let mut cloned = self.clone();
        proof {
            assert(cloned@ == self@);
        }
        cloned.fuse_regions((link.0.as_str(), link.1.as_str()));
        cloned.exhaustive(target_count, ordered)
    }

    /// The partition into `target_count` clusters with the smallest
    /// variance among all that fusions reach, found by trying them all;
    /// `None` where there is none. With `ordered`, only fusions that name
    /// the region with the smaller identifier first are tried.
    pub fn exhaustive(&self, target_count: usize, ordered: bool) -> (r: Option<Country>)
        requires
            self.wf(),
        ensures
            best_partition(self@, r, target_count as nat, ordered),
    {
        let n: usize = self.regions.len();
        let ghost g = self@;
        let ghost t = target_count as nat;
        proof {
            lemma_graph_of_size(self.arena());
        }
        if target_count == n {
            let copy = self.clone();
            proof {
                assert(copy@ == g);
                lemma_partition_of_itself(g, ordered);
                assert forall|h: Map<Seq<char>, Node>| #[trigger]
                    partition_in(g, h, t, ordered) implies spread_le(g, h) by {
                    lemma_partition_facts(g, h, t, ordered);
                }
            }
            return Some(copy);
        }
        if target_count > n || target_count == 0 {
            proof {
                assert forall|h: Map<Seq<char>, Node>| !#[trigger] partition_in(
                    g,
                    h,
                    t,
                    ordered,
                ) by {
                    if partition_in(g, h, t, ordered) {
                        lemma_partition_facts(g, h, t, ordered);
                    }
                }
            }
            return None;
        }
        let links = self.adjacent_pairs(ordered);
        let r = best_branch(self, links, target_count, ordered);
        proof {
            if r is Some {
                    let c = r->0;
                    let i = choose|i: int|
                        0 <= i < links@.len() && branch_outcome(
                            *self,
                            #[trigger] links@[i],
                            target_count,
                            ordered,
                            r,
                        );
                    let m = fuse_spec(g, links@[i].0@, links@[i].1@);
                    assert(fusable(g, links@[i].0@, links@[i].1@, ordered));
                    assert(fuses_to(g, m, ordered));
                    lemma_partition_after_step(g, m, c@, t, ordered);
                    assert forall|h: Map<Seq<char>, Node>| #[trigger]
                        partition_in(g, h, t, ordered) implies spread_le(c@, h) by {
                        let first = lemma_partition_first_step(g, h, t, ordered);
                        let j = choose|j: int|
                            0 <= j < links@.len() && (#[trigger] links@[j]).0@ == first.0
                                && links@[j].1@ == first.1;
                        let mj = fuse_spec(g, links@[j].0@, links@[j].1@);
                        assert(has_outcome(*self, links@[j], target_count, ordered, r));
                        let o = choose|o: Option<Country>| #[trigger]
                            branch_outcome(*self, links@[j], target_count, ordered, o)
                                && not_better(o, r);
                        assert(partition_in(mj, h, t, ordered));
                        assert(o is Some);
                        let d = o->0;
                        lemma_fuse_preserves_validity(g, first.0, first.1);
                        lemma_partition_facts(mj, h, t, ordered);
                        lemma_partition_facts(mj, d@, t, ordered);
                        lemma_partition_facts(g, c@, t, ordered);
                        lemma_model_variance_den(h);
                        lemma_model_variance_den(d@);
                        lemma_model_variance_den(c@);
                        lemma_frac_le_transitive(
                            model_variance_num(c@),
                            model_variance_den(c@),
                            model_variance_num(d@),
                            model_variance_den(d@),
                            model_variance_num(h),
                            model_variance_den(h),
                        );
                    }
            } else {
                    assert forall|h: Map<Seq<char>, Node>| !#[trigger] partition_in(
                        g,
                        h,
                        t,
                        ordered,
                    ) by {
                        if partition_in(g, h, t, ordered) {
                            let first = lemma_partition_first_step(g, h, t, ordered);
                            let j = choose|j: int|
                                0 <= j < links@.len() && (#[trigger] links@[j]).0@ == first.0
                                    && links@[j].1@ == first.1;
                            let mj = fuse_spec(g, links@[j].0@, links@[j].1@);
                            assert(has_outcome(*self, links@[j], target_count, ordered, r));
                            assert(partition_in(mj, h, t, ordered));
                        }
                    }
            }
        }
        r
    }

    /// Fuses adjacent regions until `target_count` regions are left, so
    /// that the variance of their values is the smallest that any
    /// sequence of fusions reaches; every sequence is tried. With as many
    /// regions as asked for, nothing changes. Fails, and changes nothing,
    /// where `target_count` is above the number of regions, or where no
    /// sequence of fusions leaves `target_count` regions.
    pub fn optimize(&mut self, target_count: usize) -> (r: Result<(), ()>)
        requires
            old(self).wf(),
        ensures
            final(self).wf(),
            target_count == old(self).regions@.len() ==> r is Ok && final(self).arena() == old(
                self,
            ).arena(),
            target_count > old(self).regions@.len() ==> r is Err,
            target_count == 0 && old(self).regions@.len() > 0 ==> r is Err,
            r is Err ==> final(self).arena() == old(self).arena(),
            r is Ok <==> exists|h: Map<Seq<char>, Node>|
                partition_of(old(self)@, h, target_count as nat),
            all_connected(old(self)@) && 1 <= target_count <= old(self).regions@.len() ==> r is Ok,
            r is Ok ==> partition_of(old(self)@, final(self)@, target_count as nat),
            r is Ok ==> forall|h: Map<Seq<char>, Node>| #[trigger]
                partition_of(old(self)@, h, target_count as nat) ==> spread_le(final(self)@, h),
    {
        self.settle(target_count, false)
    }

    /// As `optimize`, over the fusions that name the region with the
    /// smaller identifier first: each pair of adjacent regions is tried
    /// once.
    pub fn optimize2(&mut self, target_count: usize) -> (r: Result<(), ()>)
        requires
            old(self).wf(),
        ensures
            final(self).wf(),
            target_count == old(self).regions@.len() ==> r is Ok && final(self).arena() == old(
                self,
            ).arena(),
            target_count > old(self).regions@.len() ==> r is Err,
            target_count == 0 && old(self).regions@.len() > 0 ==> r is Err,
            r is Err ==> final(self).arena() == old(self).arena(),
            r is Ok <==> exists|h: Map<Seq<char>, Node>|
                partition_of(old(self)@, h, target_count as nat),
            all_connected(old(self)@) && 1 <= target_count <= old(self).regions@.len() ==> r is Ok,
            r is Ok ==> partition_in(old(self)@, final(self)@, target_count as nat, true),
            r is Ok ==> forall|h: Map<Seq<char>, Node>| #[trigger]
                partition_of(old(self)@, h, target_count as nat) ==> spread_le(final(self)@, h),
    {
        self.settle(target_count, true)
    }

    /// Replaces this country by its best partition into `target_count`
    /// clusters, where there is one.
    fn settle(&mut self, target_count: usize, ordered: bool) -> (r: Result<(), ()>)
        requires
            old(self).wf(),
        ensures
            final(self).wf(),
            target_count == old(self).regions@.len() ==> r is Ok && final(self).arena() == old(
                self,
            ).arena(),
            target_count > old(self).regions@.len() ==> r is Err,
            target_count == 0 && old(self).regions@.len() > 0 ==> r is Err,
            r is Err ==> final(self).arena() == old(self).arena(),
            r is Ok <==> exists|h: Map<Seq<char>, Node>|
                partition_of(old(self)@, h, target_count as nat),
            all_connected(old(self)@) && 1 <= target_count <= old(self).regions@.len() ==> r is Ok,
            r is Ok ==> partition_in(old(self)@, final(self)@, target_count as nat, ordered),
            r is Ok ==> forall|h: Map<Seq<char>, Node>| #[trigger]
                partition_of(old(self)@, h, target_count as nat) ==> spread_le(final(self)@, h),
    {
        let ghost g = self@;
        proof {
            lemma_graph_of_size(self.arena());
            lemma_partition_of_itself(g, ordered);
            if all_connected(g) && 1 <= target_count <= self.regions@.len() {
                let h = lemma_connected_has_partition(g, target_count as nat);
                lemma_partition_facts(g, h, target_count as nat, true);
                assert(partition_of(g, h, target_count as nat));
            }
        }
        if target_count == self.regions.len() {
            proof {
                assert(partition_of(g, g, target_count as nat)) by {
                    lemma_partition_of_itself(g, false);
                }
                assert forall|h: Map<Seq<char>, Node>| #[trigger]
                    partition_of(g, h, target_count as nat) implies spread_le(g, h) by {
                    lemma_partition_facts(g, h, target_count as nat, false);
                }
            }
            return Ok(());
        }
        proof {
            assert forall|h: Map<Seq<char>, Node>|
                (target_count > self.regions@.len() || target_count == 0) implies !partition_of(
                g,
                h,
                target_count as nat,
            ) by {
                if partition_of(g, h, target_count as nat) {
                    lemma_partition_facts(g, h, target_count as nat, false);
                }
            }
        }
        let found = self.exhaustive(target_count, ordered);
        proof {
            lemma_best_of_all(g, found, target_count as nat, ordered);
        }
        match found {
            Some(c) => {
                *self = c;
                Ok(())
            },
            None => Err(()),
        }
    }
}

} // verus!
