//! Deciding whether a list of regions is a valid country.

use vstd::prelude::*;
use crate::country::Country;
use crate::country::MAX_REGIONS;
use crate::country::MAX_TOTAL;
use crate::country::arena_names;
use crate::country::lemma_graph_of_at;
use crate::country::lemma_graph_of_size;
use crate::graph::separable;
use crate::graph::symmetric;
use crate::region::Region;
use crate::region::names_of;
use crate::sums::lemma_subrange_bounds;
use crate::sums::total;
use crate::text::separator;

verus! {

/// Whether no string occurs twice in the list.
pub fn list_is_unique(list: &Vec<String>) -> (r: bool)
    ensures
        r == names_of(list@).no_duplicates(),
{
    let n: usize = list.len();
    let ghost names = names_of(list@);
    let mut i: usize = 0;
    while i < n
        invariant
            i <= n,
            n == list@.len(),
            names == names_of(list@),
            forall|p: int, q: int| 0 <= p < i && p < q < n ==> names[p] != names[q],
        decreases n - i,
    {
        let mut j: usize = i + 1;
        while j < n
            invariant
                i < j <= n,
                n == list@.len(),
                names == names_of(list@),
                forall|q: int| i < q < j ==> names[i as int] != names[q],
            decreases n - j,
        {
            if list[i] == list[j] {
                proof {
                    assert(names[i as int] == names[j as int]);
                }
                return false;
            }
            j = j + 1;
        }
        i = i + 1;
    }
    proof {
        assert forall|p: int, q: int|
            0 <= p < names.len() && 0 <= q < names.len() && p != q implies names[p]
            != names[q] by {
            if p < q {
                assert(names[p] != names[q]);
            } else {
                assert(names[q] != names[p]);
            }
        }
    }
    true
}

/// Whether `y` begins with `x` followed by the separator.
pub fn begins_with_joined(x: &String, y: &String) -> (r: bool)
    ensures
        r == x@.push(separator()).is_prefix_of(y@),
{
    let lx: usize = x.as_str().unicode_len();
    let ly: usize = y.as_str().unicode_len();
    if ly <= lx {
        return false;
    }
    let ghost xs = x@.push(separator());
    let mut i: usize = 0;
    while i < lx
        invariant
            i <= lx,
            lx == x@.len(),
            ly == y@.len(),
            lx < ly,
            xs == x@.push(separator()),
            forall|j: int| 0 <= j < i ==> xs[j] == y@[j],
        decreases lx - i,
    {
        if x.as_str().get_char(i) != y.as_str().get_char(i) {
            proof {
                assert(xs[i as int] != y@[i as int]);
                if xs.is_prefix_of(y@) {
                    assert(xs[i as int] == y@.subrange(0, xs.len() as int)[i as int]);
                }
            }
            return false;
        }
        i = i + 1;
    }
    let last = y.as_str().get_char(lx);
    if last != '-' {
        proof {
            assert(xs[lx as int] == separator());
            if xs.is_prefix_of(y@) {
                assert(xs[lx as int] == y@.subrange(0, xs.len() as int)[lx as int]);
            }
        }
        return false;
    }
    proof {
        assert(xs =~= y@.subrange(0, xs.len() as int));
    }
    true
}

impl Country {
    /// The identifiers of the regions, in the order in which they are kept.
    pub fn names(&self) -> (v: Vec<String>)
        ensures
            names_of(v@) == arena_names(self.arena()),
    {
        let mut v: Vec<String> = Vec::new();
        let mut i: usize = 0;
        while i < self.regions.len()
            invariant
                i <= self.regions@.len(),
                v@.len() == i,
                forall|j: int| 0 <= j < i ==> v@[j]@ == self.regions@[j].name@,
            decreases self.regions@.len() - i,
        {
            v.push(self.regions[i].name.clone());
            i = i + 1;
        }
        assert(names_of(v@) =~= arena_names(self.arena()));
        v
    }

    /// Whether no identifier occurs twice and no region lists a neighbour
    /// twice.
    pub fn has_unique_names(&self) -> (r: bool)
        ensures
            r == self.inv(),
    {
        let names = self.names();
        if !list_is_unique(&names) {
            return false;
        }
        let mut i: usize = 0;
        while i < self.regions.len()
            invariant
                i <= self.regions@.len(),
                forall|j: int| 0 <= j < i ==> (#[trigger] self.arena()[j]).links.no_duplicates(),
            decreases self.regions@.len() - i,
        {
            if !list_is_unique(&self.regions[i].links) {
                proof {
                    assert(!self.arena()[i as int].links.no_duplicates());
                }
                return false;
            }
            i = i + 1;
        }
        true
    }

    /// Whether every listed neighbour exists, is another region, and lists
    /// the region back.
    pub fn has_mutual_links(&self) -> (r: bool)
        requires
            self.inv(),
        ensures
            r == symmetric(self@),
    {
        let ghost arena = self.arena();
        let ghost g = self@;
        let mut i: usize = 0;
        while i < self.regions.len()
            invariant
                i <= self.regions@.len(),
                self.inv(),
                arena == self.arena(),
                g == self@,
                forall|p: int, q: int|
                    0 <= p < i && 0 <= q < arena[p].links.len() ==> arena[p].name
                        != #[trigger] arena[p].links[q] && g.dom().contains(arena[p].links[q])
                        && g[arena[p].links[q]].neighbors.contains(arena[p].name),
            decreases self.regions@.len() - i,
        {
            let region = &self.regions[i];
            proof {
                lemma_graph_of_at(arena, i as int);
                assert(region@ == arena[i as int]);
            }
            let mut k: usize = 0;
            while k < region.links.len()
                invariant
                    i < self.regions@.len(),
                    k <= region.links@.len(),
                    self.inv(),
                    arena == self.arena(),
                    g == self@,
                    region@ == arena[i as int],
                    g.dom().contains(region@.name),
                    g[region@.name].neighbors == region@.neighbors(),
                    forall|q: int|
                        0 <= q < k ==> region@.name != #[trigger] region@.links[q] && g.dom().contains(
                            region@.links[q],
                        ) && g[region@.links[q]].neighbors.contains(region@.name),
                decreases region.links@.len() - k,
            {
                let link = &region.links[k];
                proof {
                    assert(region@.links[k as int] == link@);
                    assert(region@.neighbors().contains(link@));
                }
                if *link == region.name {
                    return false;
                }
                match self.find(link) {
                    None => {
                        return false;
                    },
                    Some(j) => {
                        proof {
                            lemma_graph_of_at(arena, j as int);
                            assert(self.regions@[j as int]@ == arena[j as int]);
                        }
                        if !self.regions[j].has_link(&region.name) {
                            return false;
                        }
                    },
                }
                k = k + 1;
            }
            i = i + 1;
        }
        proof {
            assert forall|a: Seq<char>, b: Seq<char>|
                g.dom().contains(a) && #[trigger] g[a].neighbors.contains(b) implies a != b
                && g.dom().contains(b) && g[b].neighbors.contains(a) by {
                let names = arena_names(arena);
                let p = choose|p: int| 0 <= p < names.len() && names[p] == a;
                lemma_graph_of_at(arena, p);
                let q = choose|q: int| 0 <= q < arena[p].links.len() && arena[p].links[q] == b;
                assert(arena[p].name != arena[p].links[q]);
            }
        }
        true
    }

    /// Whether no identifier begins with another identifier followed by
    /// the separator.
    pub fn has_separable_names(&self) -> (r: bool)
        ensures
            r == separable(self@),
    {
        let ghost arena = self.arena();
        let ghost names = arena_names(arena);
        let ghost g = self@;
        let n: usize = self.regions.len();
        let mut i: usize = 0;
        while i < n
            invariant
                i <= n,
                n == self.regions@.len(),
                arena == self.arena(),
                names == arena_names(arena),
                g == self@,
                forall|p: int, q: int|
                    0 <= p < i && 0 <= q < n && names[p] != names[q] ==> !#[trigger] names[p].push(
                        separator(),
                    ).is_prefix_of(names[q]),
            decreases n - i,
        {
            let mut j: usize = 0;
            while j < n
                invariant
                    i < n,
                    j <= n,
                    n == self.regions@.len(),
                    arena == self.arena(),
                    names == arena_names(arena),
                    g == self@,
                    forall|q: int|
                        0 <= q < j && names[i as int] != names[q] ==> !#[trigger] names[i as int].push(
                            separator(),
                        ).is_prefix_of(names[q]),
                decreases n - j,
            {
                proof {
                    assert(names[i as int] == self.regions@[i as int].name@);
                    assert(names[j as int] == self.regions@[j as int].name@);
                }
                if begins_with_joined(&self.regions[i].name, &self.regions[j].name) {
                    proof {
                        assert(names[i as int] != names[j as int]) by {
                            assert(names[i as int].push(separator()).len() > names[i as int].len());
                        }
                        assert(g.dom().contains(names[i as int]));
                        assert(g.dom().contains(names[j as int]));
                    }
                    return false;
                }
                j = j + 1;
            }
            i = i + 1;
        }
        proof {
            assert forall|x: Seq<char>, y: Seq<char>|
                g.dom().contains(x) && g.dom().contains(y) && x != y implies !#[trigger] x.push(
                separator(),
            ).is_prefix_of(y) by {
                let p = choose|p: int| 0 <= p < names.len() && names[p] == x;
                let q = choose|q: int| 0 <= q < names.len() && names[q] == y;
                assert(!names[p].push(separator()).is_prefix_of(names[q]));
            }
        }
        true
    }

    /// Whether the number of regions and the sum of their values are
    /// within the limits.
    pub fn is_within_limits(&self) -> (r: bool)
        ensures
            r == self.within_limits(),
    {
        let n: usize = self.regions.len();
        if n > MAX_REGIONS {
            return false;
        }
        let ghost values = self.values();
        let mut sum: u64 = 0;
        let mut i: usize = 0;
        proof {
            assert(values.take(0) =~= Seq::<int>::empty());
        }
        while i < n
            invariant
                i <= n,
                n == self.regions@.len(),
                values == self.values(),
                sum == total(values.take(i as int)),
                sum <= MAX_TOTAL,
            decreases n - i,
        {
            let v: u64 = self.regions[i].gdp;
            proof {
                assert(values.take(i + 1).drop_last() =~= values.take(i as int));
                assert(values.take(i + 1).last() == v);
                assert(values.take(i + 1) =~= values.subrange(0, i + 1));
            }
            if v > MAX_TOTAL - sum {
                proof {
                    assert(total(values.take(i + 1)) > MAX_TOTAL);
                    lemma_subrange_bounds(values, 0, i + 1);
                }
                return false;
            }
            sum = sum + v;
            i = i + 1;
        }
        proof {
            assert(values.take(n as int) =~= values);
        }
        true
    }

    /// Whether this is a valid country: unique identifiers, neighbours
    /// listed once and mutually, separable identifiers, and sizes within
    /// the limits.
    pub fn is_valid(&self) -> (r: bool)
        ensures
            r == self.wf(),
    {
        proof {
            if self.inv() {
                lemma_graph_of_size(self.arena());
            }
        }
        self.has_unique_names() && self.has_mutual_links() && self.has_separable_names()
            && self.is_within_limits()
    }

    /// The country of the given regions, where they make a valid one.
    pub fn new(regions: Vec<Region>) -> (r: Option<Country>)
        ensures
            match r {
                Some(c) => c.wf() && c.regions == regions,
                None => !(Country { regions }).wf(),
            },
    {
        let c = Country { regions };
        if c.is_valid() {
            Some(c)
        } else {
            None
        }
    }
}

} // verus!
