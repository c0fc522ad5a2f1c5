//! The greedy heuristic: fuse, again and again, the pair of adjacent
//! regions whose joint value comes closest to the mean that the clusters
//! aim at.

use vstd::prelude::*;
use crate::connect::all_connected;
use crate::connect::lemma_connected_has_pair;
use crate::connect::lemma_fuse_keeps_all_connected;
use crate::country::Country;
use crate::country::MAX_TOTAL;
use crate::country::arena_names;
use crate::country::lemma_graph_of_at;
use crate::country::lemma_graph_of_size;
use crate::graph::Node;
use crate::graph::adjacent;
use crate::graph::fuse_spec;
use crate::ratio::DEN_LIMIT;
use crate::ratio::NUM_LIMIT;
use crate::ratio::Ratio;
use crate::sums::lemma_total_bounds;
use crate::sums::total;

verus! {

/// How far the joint value `sum` is from the target `num / den`, times
/// `den`.
pub open spec fn gap(sum: int, num: int, den: int) -> int {
    if den * sum >= num {
        den * sum - num
    } else {
        num - den * sum
    }
}

/// How far the joint value of `a` and `b` is from the target, times the
/// target's denominator.
pub open spec fn pair_score(g: Map<Seq<char>, Node>, a: Seq<char>, b: Seq<char>, target: Ratio) -> int {
    gap((g[a].value + g[b].value) as int, target.num as int, target.den as int)
}

/// `a` and `b` are adjacent, and no adjacent pair comes closer to the
/// target.
pub open spec fn closest_pair(g: Map<Seq<char>, Node>, a: Seq<char>, b: Seq<char>, target: Ratio) -> bool {
    &&& adjacent(g, a, b)
    &&& forall|x: Seq<char>, y: Seq<char>| #[trigger]
        adjacent(g, x, y) ==> pair_score(g, a, b, target) <= pair_score(g, x, y, target)
}

/// `a` has the smallest value of the regions that have a neighbour, and
/// `b` is the neighbour of `a` with which it comes closest to the target.
pub open spec fn smallest_pair(g: Map<Seq<char>, Node>, a: Seq<char>, b: Seq<char>, target: Ratio) -> bool {
    &&& adjacent(g, a, b)
    &&& forall|x: Seq<char>, y: Seq<char>| #[trigger] adjacent(g, x, y) ==> g[a].value <= g[x].value
    &&& forall|y: Seq<char>| #[trigger]
        adjacent(g, a, y) ==> pair_score(g, a, b, target) <= pair_score(g, a, y, target)
}

/// `h` is `g` after the fusion that the greedy heuristic picks.
pub open spec fn greedy_step(g: Map<Seq<char>, Node>, h: Map<Seq<char>, Node>, target: Ratio) -> bool {
    exists|a: Seq<char>, b: Seq<char>|
        smallest_pair(g, a, b, target) && h == #[trigger] fuse_spec(g, a, b)
}

/// Each model of `path` but the first is the one before it after the
/// fusion that the greedy heuristic picks.
pub open spec fn greedy_path(path: Seq<Map<Seq<char>, Node>>, target: Ratio) -> bool {
    forall|i: int| 0 <= i < path.len() - 1 ==> greedy_step(#[trigger] path[i], path[i + 1], target)
}

/// `path` leads from `g` to `h` by the fusions that the greedy heuristic
/// picks.
pub open spec fn greedy_leads(
    path: Seq<Map<Seq<char>, Node>>,
    g: Map<Seq<char>, Node>,
    h: Map<Seq<char>, Node>,
    target: Ratio,
) -> bool {
    path.len() >= 1 && path[0] == g && path[path.len() - 1] == h && greedy_path(path, target)
}

/// `h` is what the greedy heuristic makes of `g` in some number of
/// fusions.
pub open spec fn greedy_result(g: Map<Seq<char>, Node>, h: Map<Seq<char>, Node>, target: Ratio) -> bool {
    exists|path: Seq<Map<Seq<char>, Node>>| #[trigger] greedy_leads(path, g, h, target)
}

/// The mean that `count` clusters of the given values aim at: the sum of
/// the values over `count`.
pub open spec fn target_mean(values: Seq<int>, count: usize) -> Ratio {
    Ratio { num: total(values) as u128, den: count as u128 }
}

/// The distance of a joint value from the target, times the target's
/// denominator.
pub fn score(sum: u64, target: &Ratio) -> (s: u128)
    requires
        sum <= 2 * MAX_TOTAL,
        target.num <= NUM_LIMIT,
        target.den <= DEN_LIMIT,
    ensures
        s == gap(sum as int, target.num as int, target.den as int),
{
    proof {
        assert(target.den * sum <= 0x4000_0000 * (2 * 0xFFFF_FFFF)) by (nonlinear_arith)
            requires
                0 <= target.den <= 0x4000_0000,
                0 <= sum <= 2 * 0xFFFF_FFFF,
        ;
    }
    let scaled: u128 = target.den * (sum as u128);
    if scaled >= target.num {
        scaled - target.num
    } else {
        target.num - scaled
    }
}

impl Country {
    /// The pair of adjacent regions whose joint value comes closest to
    /// `target`, over all pairs; `None` where no two regions are
    /// adjacent.
    pub fn regions_to_fuse(&self, target: &Ratio) -> (r: Option<(String, String)>)
        requires
            self.wf(),
            target.num <= NUM_LIMIT,
            target.den <= DEN_LIMIT,
        ensures
            match r {
                Some(pair) => closest_pair(self@, pair.0@, pair.1@, *target),
                None => forall|a: Seq<char>, b: Seq<char>| !adjacent(self@, a, b),
            },
    {
        let ghost arena = self.arena();
        let ghost g = self@;
        let mut best: Option<(usize, usize)> = None;
        let mut best_score: u128 = 0;
        let mut i: usize = 0;
        proof {
            lemma_total_bounds(self.values());
            assert forall|j: int| 0 <= j < arena.len() implies 0 <= (#[trigger] arena[j]).gdp
                <= MAX_TOTAL by {
                assert(self.values()[j] == arena[j].gdp);
            }
        }
        while i < self.regions.len()
            invariant
                i <= self.regions@.len(),
                self.wf(),
                arena == self.arena(),
                g == self@,
                target.num <= NUM_LIMIT,
                target.den <= DEN_LIMIT,
                forall|j: int| 0 <= j < arena.len() ==> 0 <= (#[trigger] arena[j]).gdp <= MAX_TOTAL,
                match best {
                    Some(at) => at.0 < self.regions@.len() && at.1 < arena[at.0 as int].links.len()
                        && best_score == pair_score(
                        g,
                        arena[at.0 as int].name,
                        arena[at.0 as int].links[at.1 as int],
                        *target,
                    ),
                    None => true,
                },
                forall|p: int|
                    0 <= p < i && (#[trigger] arena[p]).links.len() > 0 ==> best.is_some(),
                forall|p: int, q: int|
                    0 <= p < i && 0 <= q < arena[p].links.len() ==> best_score <= pair_score(
                        g,
                        arena[p].name,
                        #[trigger] arena[p].links[q],
                        *target,
                    ),
            decreases self.regions@.len() - i,
        {
            let region = &self.regions[i];
            proof {
                lemma_graph_of_at(arena, i as int);
                assert(region@ == arena[i as int]);
            }
            let mut k: usize = 0;
            while k < region.links.len()
                invariant
                    i < self.regions@.len(),
                    k <= region.links@.len(),
                    self.wf(),
                    arena == self.arena(),
                    g == self@,
                    region@ == arena[i as int],
                    g.dom().contains(region@.name),
                    g[region@.name].neighbors == region@.neighbors(),
                    g[region@.name].value == region@.gdp,
                    target.num <= NUM_LIMIT,
                    target.den <= DEN_LIMIT,
                    forall|j: int|
                        0 <= j < arena.len() ==> 0 <= (#[trigger] arena[j]).gdp <= MAX_TOTAL,
                    match best {
                        Some(at) => at.0 < self.regions@.len() && at.1 < arena[at.0 as int].links.len()
                            && best_score == pair_score(
                            g,
                            arena[at.0 as int].name,
                            arena[at.0 as int].links[at.1 as int],
                            *target,
                        ),
                        None => true,
                    },
                    forall|p: int|
                        0 <= p < i && (#[trigger] arena[p]).links.len() > 0 ==> best.is_some(),
                    forall|p: int, q: int|
                        0 <= p < i && 0 <= q < arena[p].links.len() ==> best_score <= pair_score(
                            g,
                            arena[p].name,
                            #[trigger] arena[p].links[q],
                            *target,
                        ),
                    k > 0 ==> best.is_some(),
                    forall|q: int|
                        0 <= q < k ==> best_score <= pair_score(
                            g,
                            region@.name,
                            #[trigger] region@.links[q],
                            *target,
                        ),
                decreases region.links@.len() - k,
            {
                let link = &region.links[k];
                proof {
                    assert(region@.links[k as int] == link@);
                    assert(region@.neighbors().contains(link@));
                }
                let j = self.find(link).unwrap();
                proof {
                    lemma_graph_of_at(arena, j as int);
                    assert(self.regions@[j as int]@ == arena[j as int]);
                    assert(0 <= arena[j as int].gdp <= MAX_TOTAL);
                    assert(0 <= arena[i as int].gdp <= MAX_TOTAL);
                }
                let s = score(region.gdp + self.regions[j].gdp, target);
                if best.is_none() || s < best_score {
                    best = Some((i, k));
                    best_score = s;
                }
                k = k + 1;
            }
            i = i + 1;
        }
        match best {
            None => {
                proof {
                    assert forall|a: Seq<char>, b: Seq<char>| !adjacent(g, a, b) by {
                        if adjacent(g, a, b) {
                            let names = arena_names(arena);
                            let p = choose|p: int| 0 <= p < names.len() && names[p] == a;
                            lemma_graph_of_at(arena, p);
                            let q = choose|q: int|
                                0 <= q < arena[p].links.len() && arena[p].links[q] == b;
                            assert(arena[p].links.len() > 0);
                        }
                    }
                }
                None
            },
            Some(at) => {
                proof {
                    lemma_graph_of_at(arena, at.0 as int);
                    let a = arena[at.0 as int].name;
                    let b = arena[at.0 as int].links[at.1 as int];
                    assert(arena[at.0 as int].neighbors().contains(b));
                    assert(g[a].neighbors.contains(b));
                    assert(adjacent(g, a, b));
                    assert forall|x: Seq<char>, y: Seq<char>| #[trigger]
                        adjacent(g, x, y) implies pair_score(g, a, b, *target) <= pair_score(
                        g,
                        x,
                        y,
                        *target,
                    ) by {
                        let names = arena_names(arena);
                        let p = choose|p: int| 0 <= p < names.len() && names[p] == x;
                        lemma_graph_of_at(arena, p);
                        let q = choose|q: int|
                            0 <= q < arena[p].links.len() && arena[p].links[q] == y;
                        assert(best_score <= pair_score(
                            g,
                            arena[p].name,
                            arena[p].links[q],
                            *target,
                        ));
                    }
                }
                Some(
                    (
                        self.regions[at.0].name.clone(),
                        self.regions[at.0].links[at.1].clone(),
                    ),
                )
            },
        }
    }

    /// The pair that the greedy heuristic fuses next: the region of
    /// smallest value among those that have a neighbour, with the
    /// neighbour with which its joint value comes closest to `target`;
    /// `None` where no two regions are adjacent.
    pub fn regions_to_fuse_smallest(&self, target: &Ratio) -> (r: Option<(String, String)>)
        requires
            self.wf(),
            target.num <= NUM_LIMIT,
            target.den <= DEN_LIMIT,
        ensures
            match r {
                Some(pair) => smallest_pair(self@, pair.0@, pair.1@, *target),
                None => forall|a: Seq<char>, b: Seq<char>| !adjacent(self@, a, b),
            },
    {
        let ghost arena = self.arena();
        let ghost g = self@;
        let mut low: Option<usize> = None;
        let mut i: usize = 0;
        proof {
            lemma_total_bounds(self.values());
            assert forall|j: int| 0 <= j < arena.len() implies 0 <= (#[trigger] arena[j]).gdp
                <= MAX_TOTAL by {
                assert(self.values()[j] == arena[j].gdp);
            }
        }
        while i < self.regions.len()
            invariant
                i <= self.regions@.len(),
                arena == self.arena(),
                match low {
                    Some(at) => at < i && arena[at as int].links.len() > 0,
                    None => true,
                },
                forall|p: int|
                    0 <= p < i && (#[trigger] arena[p]).links.len() > 0 ==> low.is_some(),
                forall|p: int|
                    0 <= p < i && (#[trigger] arena[p]).links.len() > 0 ==> arena[low->0 as int].gdp
                        <= arena[p].gdp,
            decreases self.regions@.len() - i,
        {
            proof {
                assert(self.regions@[i as int]@ == arena[i as int]);
            }
            if self.regions[i].links.len() > 0 {
                let smaller = match low {
                    Some(at) => self.regions[i].gdp < self.regions[at].gdp,
                    None => true,
                };
                proof {
                    if low is Some {
                        assert(self.regions@[low->0 as int]@ == arena[low->0 as int]);
                    }
                }
                if smaller {
                    low = Some(i);
                }
            }
            i = i + 1;
        }
        match low {
            None => {
                proof {
                    assert forall|a: Seq<char>, b: Seq<char>| !adjacent(g, a, b) by {
                        if adjacent(g, a, b) {
                            let names = arena_names(arena);
                            let p = choose|p: int| 0 <= p < names.len() && names[p] == a;
                            lemma_graph_of_at(arena, p);
                            let q = choose|q: int|
                                0 <= q < arena[p].links.len() && arena[p].links[q] == b;
                            assert(arena[p].links.len() > 0);
                        }
                    }
                }
                None
            },
            Some(at) => {
                let region = &self.regions[at];
                proof {
                    lemma_graph_of_at(arena, at as int);
                    assert(region@ == arena[at as int]);
                }
                let mut best: usize = 0;
                let mut best_score: u128 = 0;
                let mut k: usize = 0;
                while k < region.links.len()
                    invariant
                        at < self.regions@.len(),
                        k <= region.links@.len(),
                        region.links@.len() > 0,
                        self.wf(),
                        arena == self.arena(),
                        g == self@,
                        region@ == arena[at as int],
                        g.dom().contains(region@.name),
                        g[region@.name].neighbors == region@.neighbors(),
                        g[region@.name].value == region@.gdp,
                        target.num <= NUM_LIMIT,
                        target.den <= DEN_LIMIT,
                        forall|j: int|
                            0 <= j < arena.len() ==> 0 <= (#[trigger] arena[j]).gdp <= MAX_TOTAL,
                        best < region.links@.len(),
                        k > 0 ==> best_score == pair_score(
                            g,
                            region@.name,
                            region@.links[best as int],
                            *target,
                        ),
                        forall|q: int|
                            0 <= q < k ==> best_score <= pair_score(
                                g,
                                region@.name,
                                #[trigger] region@.links[q],
                                *target,
                            ),
                    decreases region.links@.len() - k,
                {
                    let link = &region.links[k];
                    proof {
                        assert(region@.links[k as int] == link@);
                        assert(region@.neighbors().contains(link@));
                    }
                    let j = self.find(link).unwrap();
                    proof {
                        lemma_graph_of_at(arena, j as int);
                        assert(self.regions@[j as int]@ == arena[j as int]);
                        assert(0 <= arena[j as int].gdp <= MAX_TOTAL);
                        assert(0 <= arena[at as int].gdp <= MAX_TOTAL);
                    }
                    let s = score(region.gdp + self.regions[j].gdp, target);
                    if k == 0 || s < best_score {
                        best = k;
                        best_score = s;
                    }
                    k = k + 1;
                }
                proof {
                    let a = region@.name;
                    let b = region@.links[best as int];
                    assert(region@.neighbors().contains(b));
                    assert(g[a].neighbors.contains(b));
                    assert(adjacent(g, a, b));
                    assert forall|x: Seq<char>, y: Seq<char>| #[trigger]
                        adjacent(g, x, y) implies g[a].value <= g[x].value by {
                        let names = arena_names(arena);
                        let p = choose|p: int| 0 <= p < names.len() && names[p] == x;
                        lemma_graph_of_at(arena, p);
                        assert(arena[p].links.len() > 0);
                    }
                    assert forall|y: Seq<char>| #[trigger] adjacent(g, a, y) implies pair_score(
                        g,
                        a,
                        b,
                        *target,
                    ) <= pair_score(g, a, y, *target) by {}
                }
                Some((region.name.clone(), region.links[best].clone()))
            },
        }
    }

    /// Fuses, again and again, the pair that `regions_to_fuse_smallest`
    /// picks for the target mean, the sum of all values over `count`,
    /// until `count` regions are left. Fails where regions are left over
    /// and no two of them are adjacent; the fusions made until then stay.
    pub fn organize(&mut self, count: usize) -> (r: Result<(), ()>)
        requires
            old(self).wf(),
        ensures
            final(self).wf(),
            greedy_result(old(self)@, final(self)@, target_mean(old(self).values(), count)),
            count >= old(self).regions@.len() ==> final(self).arena() == old(self).arena(),
            r is Ok <==> final(self).regions@.len() <= count,
            r is Ok && count <= old(self).regions@.len() ==> final(self).regions@.len() == count,
            r is Err ==> forall|a: Seq<char>, b: Seq<char>| !adjacent(final(self)@, a, b),
            all_connected(old(self)@) && count >= 1 ==> r is Ok,
    {
        let ghost start = self@;
        let ghost mut path: Seq<Map<Seq<char>, Node>> = seq![self@];
        if count >= self.regions.len() {
            proof {
                assert(greedy_leads(path, start, self@, target_mean(old(self).values(), count)));
            }
            return Ok(());
        }
        let sum = self.total_gdp();
        let target = Ratio { num: sum as u128, den: count as u128 };
        while self.regions.len() > count
            invariant
                self.wf(),
                count < old(self).regions@.len(),
                self.regions@.len() <= old(self).regions@.len(),
                count <= self.regions@.len(),
                count <= 1024,
                target == target_mean(old(self).values(), count),
                target.num <= MAX_TOTAL,
                greedy_leads(path, start, self@, target),
                start == old(self)@,
                all_connected(old(self)@) ==> all_connected(self@),
            decreases self.regions@.len(),
        {
            match self.regions_to_fuse_smallest(&target) {
                None => {
                    proof {
                        if all_connected(self@) && count >= 1 {
                            lemma_graph_of_size(self.arena());
                            let pair = lemma_connected_has_pair(self@);
                        }
                    }
                    return Err(());
                },
                Some(pair) => {
                    let ghost g = self@;
                    self.fuse_regions((pair.0.as_str(), pair.1.as_str()));
                    proof {
                        if all_connected(g) {
                            lemma_fuse_keeps_all_connected(g, pair.0@, pair.1@);
                        }
                        let before = path;
                        path = path.push(self@);
                        assert(greedy_step(g, self@, target));
                        assert forall|i: int| 0 <= i < path.len() - 1 implies greedy_step(
                            #[trigger] path[i],
                            path[i + 1],
                            target,
                        ) by {
                            if i < before.len() - 1 {
                                assert(path[i] == before[i]);
                                assert(path[i + 1] == before[i + 1]);
                                assert(greedy_step(before[i], before[i + 1], target));
                            }
                        }
                    }
                },
            }
        }
        Ok(())
    }
}

} // verus!
