//! The country: an arena of regions keyed by identifier, and the fusion of
//! two adjacent regions.

use vstd::prelude::*;
use vstd::multiset::Multiset;
use crate::graph::Node;
use crate::graph::adjacent;
use crate::graph::fuse_spec;
use crate::graph::fused_neighbors;
use crate::graph::graph_wf;
use crate::graph::lemma_bag_remove;
use crate::graph::value_bag;
use crate::graph::value_map;
use crate::graph::lemma_fuse_preserves_validity;
use crate::region::Region;
use crate::region::RegionView;
use crate::region::names_of;
use crate::region::position_of;
use crate::sums::lemma_sum_push;
use crate::sums::lemma_sum_remove;
use crate::sums::lemma_total_bounds;
use crate::sums::ident;
use crate::sums::total;
use crate::text::joined;
use crate::text::strictly_ascending;

verus! {

/// The largest number of regions that a valid country holds.
pub const MAX_REGIONS: usize = 1024;

/// The largest sum of region values that a valid country holds.
pub const MAX_TOTAL: u64 = 0xFFFF_FFFF;

/// A graph of regions. No two regions share an identifier; the order in
/// which the regions are kept carries no meaning.
#[derive(Debug)]
pub struct Country {
    pub regions: Vec<Region>,
}

/// The identifiers of the regions, in the order in which they are kept.
pub open spec fn arena_names(a: Seq<RegionView>) -> Seq<Seq<char>> {
    Seq::new(a.len(), |i: int| a[i].name)
}

/// The values of the regions, in the order in which they are kept.
pub open spec fn arena_values(a: Seq<RegionView>) -> Seq<int> {
    Seq::new(a.len(), |i: int| a[i].gdp as int)
}

/// The node that a region stands for.
pub open spec fn node_of(r: RegionView) -> Node {
    Node { value: r.gdp, neighbors: r.neighbors() }
}

/// The model of a list of regions: each identifier mapped to its node.
pub open spec fn graph_of(a: Seq<RegionView>) -> Map<Seq<char>, Node> {
    Map::new(
        |k: Seq<char>| arena_names(a).contains(k),
        |k: Seq<char>| node_of(a[arena_names(a).index_of(k)]),
    )
}

/// No identifier occurs twice, and no region lists a neighbour twice.
pub open spec fn arena_inv(a: Seq<RegionView>) -> bool {
    &&& arena_names(a).no_duplicates()
    &&& forall|i: int| 0 <= i < a.len() ==> (#[trigger] a[i]).links.no_duplicates()
}

/// Where identifiers are unique, the model maps the identifier of each
/// region to that region's node.
pub proof fn lemma_graph_of_at(a: Seq<RegionView>, i: int)
    requires
        arena_names(a).no_duplicates(),
        0 <= i < a.len(),
    ensures
        graph_of(a).dom().contains(a[i].name),
        graph_of(a)[a[i].name] == node_of(a[i]),
        arena_names(a).index_of(a[i].name) == i,
{
    let names = arena_names(a);
    assert(names[i] == a[i].name);
    let j = names.index_of(a[i].name);
    assert(0 <= j < names.len() && names[j] == a[i].name);
}

/// The model of a list of regions has finitely many nodes: as many as the
/// list has regions, where identifiers are unique.
pub proof fn lemma_graph_of_size(a: Seq<RegionView>)
    requires
        arena_names(a).no_duplicates(),
    ensures
        graph_of(a).dom().finite(),
        graph_of(a).dom().len() == a.len(),
{
    let names = arena_names(a);
    assert(graph_of(a).dom() =~= names.to_set());
    names.unique_seq_to_set();
}

/// Taking a region out of a list takes its node out of the model.
pub proof fn lemma_arena_remove(a: Seq<RegionView>, i: int)
    requires
        arena_inv(a),
        0 <= i < a.len(),
    ensures
        arena_inv(a.remove(i)),
        graph_of(a.remove(i)) == graph_of(a).remove(a[i].name),
        arena_values(a.remove(i)) == arena_values(a).remove(i),
{
    let r = a.remove(i);
    assert(arena_names(r) =~= arena_names(a).remove(i));
    assert(arena_values(r) =~= arena_values(a).remove(i));
    assert forall|j: int, k: int|
        0 <= j < arena_names(r).len() && 0 <= k < arena_names(r).len() && j
            != k implies arena_names(r)[j] != arena_names(r)[k] by {
        let jj = if j < i { j } else { j + 1 };
        let kk = if k < i { k } else { k + 1 };
        assert(arena_names(r)[j] == arena_names(a)[jj]);
        assert(arena_names(r)[k] == arena_names(a)[kk]);
    }
    assert forall|j: int| 0 <= j < r.len() implies (#[trigger] r[j]).links.no_duplicates() by {
        let jj = if j < i { j } else { j + 1 };
        assert(r[j] == a[jj]);
    }
    assert forall|x: Seq<char>| #[trigger]
        graph_of(r).dom().contains(x) <==> graph_of(a).remove(a[i].name).dom().contains(x) by {
        if arena_names(r).contains(x) {
            let j = choose|j: int| 0 <= j < arena_names(r).len() && arena_names(r)[j] == x;
            let jj = if j < i { j } else { j + 1 };
            assert(arena_names(a)[jj] == x);
            assert(arena_names(a)[i] == a[i].name);
        }
        if arena_names(a).contains(x) && x != a[i].name {
            let jj = choose|j: int| 0 <= j < arena_names(a).len() && arena_names(a)[j] == x;
            let j = if jj < i { jj } else { jj - 1 };
            assert(arena_names(r)[j] == x);
        }
    }
    assert forall|x: Seq<char>| #[trigger] graph_of(r).dom().contains(x) implies graph_of(r)[x]
        == graph_of(a).remove(a[i].name)[x] by {
        let j = choose|j: int| 0 <= j < arena_names(r).len() && arena_names(r)[j] == x;
        let jj = if j < i { j } else { j + 1 };
        assert(r[j] == a[jj]);
        lemma_graph_of_at(r, j);
        lemma_graph_of_at(a, jj);
    }
    assert(graph_of(r) =~= graph_of(a).remove(a[i].name));
}

/// Appending a region with a new identifier adds its node to the model.
pub proof fn lemma_arena_push(a: Seq<RegionView>, r: RegionView)
    requires
        arena_inv(a),
        r.links.no_duplicates(),
        !graph_of(a).dom().contains(r.name),
    ensures
        arena_inv(a.push(r)),
        graph_of(a.push(r)) == graph_of(a).insert(r.name, node_of(r)),
        arena_values(a.push(r)) == arena_values(a).push(r.gdp as int),
{
    let b = a.push(r);
    assert(arena_names(b) =~= arena_names(a).push(r.name));
    assert(arena_values(b) =~= arena_values(a).push(r.gdp as int));
    assert forall|j: int, k: int|
        0 <= j < arena_names(b).len() && 0 <= k < arena_names(b).len() && j
            != k implies arena_names(b)[j] != arena_names(b)[k] by {
        if j < a.len() {
            assert(arena_names(a)[j] == arena_names(b)[j]);
        }
        if k < a.len() {
            assert(arena_names(a)[k] == arena_names(b)[k]);
        }
    }
    assert forall|j: int| 0 <= j < b.len() implies (#[trigger] b[j]).links.no_duplicates() by {
        if j < a.len() {
            assert(b[j] == a[j]);
        }
    }
    assert forall|x: Seq<char>| #[trigger]
        graph_of(b).dom().contains(x) <==> graph_of(a).insert(r.name, node_of(r)).dom().contains(
            x,
        ) by {
        if arena_names(b).contains(x) {
            let j = choose|j: int| 0 <= j < arena_names(b).len() && arena_names(b)[j] == x;
            if j < a.len() {
                assert(arena_names(a)[j] == x);
            }
        }
        if arena_names(a).contains(x) {
            let j = choose|j: int| 0 <= j < arena_names(a).len() && arena_names(a)[j] == x;
            assert(arena_names(b)[j] == x);
        }
        if x == r.name {
            assert(arena_names(b)[a.len() as int] == x);
        }
    }
    assert forall|x: Seq<char>| #[trigger] graph_of(b).dom().contains(x) implies graph_of(b)[x]
        == graph_of(a).insert(r.name, node_of(r))[x] by {
        let j = choose|j: int| 0 <= j < arena_names(b).len() && arena_names(b)[j] == x;
        lemma_graph_of_at(b, j);
        if j < a.len() {
            assert(b[j] == a[j]);
            lemma_graph_of_at(a, j);
        }
    }
    assert(graph_of(b) =~= graph_of(a).insert(r.name, node_of(r)));
}

/// The values of a list of regions with unique identifiers are, as a
/// multiset, the values of its model.
pub proof fn lemma_arena_bag(a: Seq<RegionView>)
    requires
        arena_inv(a),
    ensures
        arena_values(a).to_multiset() == value_bag(graph_of(a)),
    decreases a.len(),
{
    let g = graph_of(a);
    lemma_graph_of_size(a);
    assert(value_map(g).dom() =~= g.dom());
    if a.len() == 0 {
        assert(arena_values(a) =~= Seq::<int>::empty());
        assert(arena_values(a).to_multiset() =~= Multiset::<int>::empty()) by {
            vstd::seq_lib::to_multiset_len(arena_values(a));
            assert(arena_values(a).to_multiset().len() == 0);
        }
    } else {
        let n = a.len() - 1;
        let r = a.remove(n);
        lemma_arena_remove(a, n);
        lemma_graph_of_at(a, n);
        lemma_arena_bag(r);
        lemma_bag_remove(value_map(g), a[n].name);
        assert(value_map(g).remove(a[n].name) =~= value_map(graph_of(r)));
        assert(arena_values(a) =~= arena_values(r).push(a[n].gdp as int));
        vstd::seq_lib::to_multiset_build(arena_values(r), a[n].gdp as int);
    }
}

/// Taking the first occurrence of a value out of a list without
/// duplicates takes the value out of the set of its items.
pub proof fn lemma_remove_value(s: Seq<Seq<char>>, x: Seq<char>)
    requires
        s.no_duplicates(),
    ensures
        s.remove_value(x).no_duplicates(),
        s.remove_value(x).to_set() == s.to_set().remove(x),
{
    s.index_of_first_ensures(x);
    let r = s.remove_value(x);
    match s.index_of_first(x) {
        Some(p) => {
            assert forall|j: int, k: int| 0 <= j < r.len() && 0 <= k < r.len() && j != k implies r[j]
                != r[k] by {
                let jj = if j < p { j } else { j + 1 };
                let kk = if k < p { k } else { k + 1 };
                assert(r[j] == s[jj]);
                assert(r[k] == s[kk]);
            }
            assert forall|y: Seq<char>| #[trigger] r.to_set().contains(y) <==> s.to_set().remove(
                x,
            ).contains(y) by {
                if r.contains(y) {
                    let j = choose|j: int| 0 <= j < r.len() && r[j] == y;
                    let jj = if j < p { j } else { j + 1 };
                    assert(s[jj] == y);
                }
                if s.contains(y) && y != x {
                    let jj = choose|j: int| 0 <= j < s.len() && s[j] == y;
                    let j = if jj < p { jj } else { jj - 1 };
                    assert(r[j] == y);
                }
            }
            assert(r.to_set() =~= s.to_set().remove(x));
        },
        None => {
            assert(r.to_set() =~= s.to_set().remove(x));
        },
    }
}

/// Appending a new value to a list without duplicates adds it to the set
/// of its items.
pub proof fn lemma_push_new(s: Seq<Seq<char>>, x: Seq<char>)
    requires
        s.no_duplicates(),
        !s.contains(x),
    ensures
        s.push(x).no_duplicates(),
        s.push(x).to_set() == s.to_set().insert(x),
{
    s.lemma_push_to_set_commute(x);
    assert forall|j: int, k: int|
        0 <= j < s.push(x).len() && 0 <= k < s.push(x).len() && j != k implies s.push(x)[j]
        != s.push(x)[k] by {
        if j < s.len() {
            assert(s[j] == s.push(x)[j]);
        }
        if k < s.len() {
            assert(s[k] == s.push(x)[k]);
        }
    }
}

/// What the fusion of `a` and `b` makes of a region `before` other than
/// the two, given the neighbours `nb` of the fused region.
pub open spec fn rewired(
    before: RegionView,
    after: RegionView,
    a: Seq<char>,
    b: Seq<char>,
    nb: Set<Seq<char>>,
) -> bool {
    &&& after == rewired_view(before, a, b, nb)
    &&& after.name == before.name
    &&& after.gdp == before.gdp
    &&& after.links.no_duplicates()
    &&& after.neighbors() == if nb.contains(before.name) {
        before.neighbors().remove(a).remove(b).insert(joined(a, b))
    } else {
        before.neighbors()
    }
}

/// The list without the region named `name`.
pub open spec fn without(arena: Seq<RegionView>, name: Seq<char>) -> Seq<RegionView> {
    arena.remove(arena_names(arena).index_of(name))
}

/// What the fusion of `a` and `b` makes of a region other than the two,
/// given the neighbours `nb` of the fused region: a neighbour no longer
/// lists `a` and `b` and lists the fused region last; any other region
/// stays as it is.
pub open spec fn rewired_view(
    before: RegionView,
    a: Seq<char>,
    b: Seq<char>,
    nb: Set<Seq<char>>,
) -> RegionView {
    if nb.contains(before.name) {
        RegionView {
            links: before.links.remove_value(a).remove_value(b).push(joined(a, b)),
            ..before
        }
    } else {
        before
    }
}

/// `after` is the list `before` after the fusion of `a` and `b` in the
/// model `g`: the two regions are gone, the others follow in their order,
/// each rewired, and the fused region comes last, its neighbours in the
/// order of identifiers.
pub open spec fn fused_arena(
    g: Map<Seq<char>, Node>,
    before: Seq<RegionView>,
    after: Seq<RegionView>,
    a: Seq<char>,
    b: Seq<char>,
) -> bool {
    let others = without(without(before, a), b);
    let last = after[after.len() - 1];
    &&& after.len() == others.len() + 1
    &&& forall|j: int|
        0 <= j < others.len() ==> #[trigger] after[j] == rewired_view(
            others[j],
            a,
            b,
            fused_neighbors(g, a, b),
        )
    &&& last.name == joined(a, b)
    &&& last.gdp == g[a].value + g[b].value
    &&& strictly_ascending(last.links)
    &&& last.neighbors() == fused_neighbors(g, a, b)
}


impl View for Country {
    type V = Map<Seq<char>, Node>;

    open spec fn view(&self) -> Map<Seq<char>, Node> {
        graph_of(self.arena())
    }
}

impl Country {
    /// The regions as plain values, in the order in which they are kept.
    pub open spec fn arena(&self) -> Seq<RegionView> {
        Seq::new(self.regions@.len(), |i: int| self.regions@[i]@)
    }

    /// The values of the regions, in the order in which they are kept.
    pub open spec fn values(&self) -> Seq<int> {
        arena_values(self.arena())
    }

    /// Identifiers are unique and no neighbour is listed twice.
    pub open spec fn inv(&self) -> bool {
        arena_inv(self.arena())
    }

    /// The number of regions and the sum of their values are within what
    /// the exact arithmetic of the statistics can hold.
    pub open spec fn within_limits(&self) -> bool {
        &&& self.regions@.len() <= MAX_REGIONS
        &&& total(self.values()) <= MAX_TOTAL
    }

    /// Validity: unique identifiers, a valid model, and sizes within the
    /// limits.
    pub open spec fn wf(&self) -> bool {
        &&& self.inv()
        &&& graph_wf(self@)
        &&& self.within_limits()
    }

    /// Position of the region named `name`, if there is one.
    pub fn find(&self, name: &String) -> (r: Option<usize>)
        ensures
            match r {
                Some(i) => i < self.regions@.len() && self.arena()[i as int].name == name@
                    && forall|j: int| 0 <= j < i ==> self.arena()[j].name != name@,
                None => !self@.dom().contains(name@),
            },
    {
        let mut i: usize = 0;
        while i < self.regions.len()
            invariant
                i <= self.regions@.len(),
                forall|j: int| 0 <= j < i ==> self.arena()[j].name != name@,
            decreases self.regions@.len() - i,
        {
            if self.regions[i].name == *name {
                return Some(i);
            }
            i = i + 1;
        }
        proof {
            let names = arena_names(self.arena());
            if names.contains(name@) {
                let j = choose|j: int| 0 <= j < names.len() && names[j] == name@;
                assert(self.arena()[j].name != name@);
            }
        }
        None
    }

    /// The region named `name`, if there is one.
    pub fn region(&self, name: &str) -> (r: Option<&Region>)
        ensures
            r is Some <==> self@.dom().contains(name@),
            r is Some ==> r->0@.name == name@ && self.arena().contains(r->0@),
            r is Some && self.inv() ==> node_of(r->0@) == self@[name@],
    {
        let key = name.to_owned();
        match self.find(&key) {
            Some(i) => {
                proof {
                    assert(arena_names(self.arena())[i as int] == name@);
                    assert(self.arena()[i as int] == self.regions[i as int]@);
                    if self.inv() {
                        lemma_graph_of_at(self.arena(), i as int);
                    }
                }
                Some(&self.regions[i])
            },
            None => None,
        }
    }

    /// The number of regions.
    pub fn len(&self) -> (n: usize)
        ensures
            n == self.regions@.len(),
            self.inv() ==> n == self@.dom().len(),
    {
        proof {
            if self.inv() {
                lemma_graph_of_size(self.arena());
            }
        }
        self.regions.len()
    }

    /// Takes `name` out of the neighbours that the region `region_name`
    /// lists.
    pub fn remove_link_from_region(&mut self, region_name: &str, name: &str)
        requires
            old(self).inv(),
            old(self)@.dom().contains(region_name@),
        ensures
            final(self).inv(),
            final(self).arena() == ({
                let a = old(self).arena();
                let i = arena_names(a).index_of(region_name@);
                a.update(i, RegionView { links: a[i].links.remove_value(name@), ..a[i] })
            }),
    {
        let region_key = region_name.to_owned();
        let key = name.to_owned();
        let ghost a = self.arena();
        let found = self.find(&region_key);
        let idx = found.unwrap();
        proof {
            lemma_graph_of_at(a, idx as int);
            a[idx as int].links.index_of_first_ensures(name@);
        }
        let pos = position_of(&self.regions[idx].links, &key);
        match pos {
            Some(p) => {
                let ghost links = self.regions[idx as int].links@;
                proof {
                    assert(names_of(links)[p as int] == name@);
                    let q = names_of(links).index_of_first(name@)->0;
                    assert(names_of(links)[q] == name@);
                    assert(q == p) by {
                        if q < p {
                            assert(links[q]@ != name@);
                        }
                    }
                }
                self.regions[idx].links.remove(p);
                proof {
                    assert(names_of(self.regions[idx as int].links@) =~= names_of(links).remove(
                        p as int,
                    ));
                }
            },
            None => {},
        }
        proof {
            let i = arena_names(a).index_of(region_name@);
            let target = a.update(
                i,
                RegionView { links: a[i].links.remove_value(name@), ..a[i] },
            );
            assert(self.arena() =~= target);
            assert(arena_names(self.arena()) =~= arena_names(a));
            assert forall|k: int| 0 <= k < self.arena().len() implies (
            #[trigger] self.arena()[k]).links.no_duplicates() by {
                assert(a[k].links.no_duplicates());
            }
        }
    }

    /// Appends `name` to the neighbours that the region `region_name`
    /// lists.
    pub fn add_link_to_region(&mut self, region_name: &str, name: &str)
        requires
            old(self).inv(),
            old(self)@.dom().contains(region_name@),
        ensures
            final(self).arena() == ({
                let a = old(self).arena();
                let i = arena_names(a).index_of(region_name@);
                a.update(i, RegionView { links: a[i].links.push(name@), ..a[i] })
            }),
    {
        let region_key = region_name.to_owned();
        let key = name.to_owned();
        let ghost a = self.arena();
        let found = self.find(&region_key);
        let idx = found.unwrap();
        proof {
            lemma_graph_of_at(a, idx as int);
        }
        let ghost links = self.regions[idx as int].links@;
        self.regions[idx].links.push(key);
        proof {
            assert(names_of(self.regions[idx as int].links@) =~= names_of(links).push(name@));
            let i = arena_names(a).index_of(region_name@);
            assert(self.arena() =~= a.update(
                i,
                RegionView { links: a[i].links.push(name@), ..a[i] },
            ));
        }
    }

    /// Fuses the adjacent regions `names.0` and `names.1`. Both leave the
    /// country; a region named by the two identifiers joined with the
    /// separator enters it, with the sum of their values and the union of
    /// their neighbours, and each of those neighbours lists it in their
    /// place.
    pub fn fuse_regions(&mut self, names: (&str, &str))
        requires
            old(self).wf(),
            adjacent(old(self)@, names.0@, names.1@),
        ensures
            final(self).wf(),
            final(self)@ == fuse_spec(old(self)@, names.0@, names.1@),
            final(self).regions@.len() + 1 == old(self).regions@.len(),
            total(final(self).values()) == total(old(self).values()),
            fused_arena(old(self)@, old(self).arena(), final(self).arena(), names.0@, names.1@),
    {
        let ghost a = names.0@;
        let ghost b = names.1@;
        let ghost ab = joined(a, b);
        let ghost g = self@;
        let ghost a0 = self.arena();
        let left_key = names.0.to_owned();
        let right_key = names.1.to_owned();
        proof {
            lemma_fuse_preserves_validity(g, a, b);
        }
        let ia = self.find(&left_key).unwrap();
        proof {
            lemma_graph_of_at(a0, ia as int);
            lemma_arena_remove(a0, ia as int);
        }
        let left = self.regions.remove(ia);
        let ghost a1 = self.arena();
        assert(a1 =~= a0.remove(ia as int));
        let ib = self.find(&right_key).unwrap();
        proof {
            lemma_graph_of_at(a1, ib as int);
            lemma_arena_remove(a1, ib as int);
        }
        let right = self.regions.remove(ib);
        let ghost a2 = self.arena();
        assert(a2 =~= a1.remove(ib as int));
        assert(a1 == without(a0, a));
        assert(a2 == without(a1, b));
        assert(graph_of(a2) == g.remove(a).remove(b));
        assert(left@ == a0[ia as int]);
        assert(right@ == a1[ib as int]);
        assert(node_of(left@) == g[a]);
        assert(node_of(right@) == g[b]);
        proof {
            let v0 = arena_values(a0);
            let v1 = arena_values(a1);
            let v2 = arena_values(a2);
            lemma_sum_remove(v0, ia as int, ident());
            lemma_sum_remove(v1, ib as int, ident());
            lemma_total_bounds(v2);
            assert(total(v0) == total(v2) + left.gdp + right.gdp);
        }
        let fused = left.fuse(right);
        let ghost nb = fused@.neighbors();
        assert(nb == fused_neighbors(g, a, b));
        let mut k: usize = 0;
        while k < self.regions.len()
            invariant
                k <= self.regions@.len(),
                self.arena().len() == a2.len(),
                arena_inv(a2),
                self.inv(),
                graph_wf(g),
                !g.dom().contains(ab),
                ab == joined(a, b),
                a == names.0@,
                b == names.1@,
                graph_of(a2) == g.remove(a).remove(b),
                nb == fused@.neighbors(),
                fused@.name == ab,
                forall|j: int| 0 <= j < k ==> rewired(a2[j], #[trigger] self.arena()[j], a, b, nb),
                forall|j: int| k <= j < a2.len() ==> #[trigger] self.arena()[j] == a2[j],
                forall|j: int| 0 <= j < a2.len() ==> (#[trigger] self.arena()[j]).name == a2[j].name,
            decreases self.regions@.len() - k,
        {
            let ghost c = self.arena();
            proof {
                lemma_graph_of_at(c, k as int);
                lemma_graph_of_at(a2, k as int);
            }
            if fused.has_link(&self.regions[k].name) {
                let region_name = self.regions[k].name.clone();
                self.remove_link_from_region(region_name.as_str(), names.0);
                let ghost c1 = self.arena();
                proof {
                    lemma_graph_of_at(c1, k as int);
                }
                self.remove_link_from_region(region_name.as_str(), names.1);
                let ghost c2 = self.arena();
                proof {
                    lemma_graph_of_at(c2, k as int);
                }
                self.add_link_to_region(region_name.as_str(), fused.name.as_str());
                proof {
                    let c3 = self.arena();
                    let l0 = c[k as int].links;
                    lemma_remove_value(l0, a);
                    lemma_remove_value(l0.remove_value(a), b);
                    let l2 = l0.remove_value(a).remove_value(b);
                    assert(c3[k as int].links == l2.push(ab));
                    assert(!l2.contains(ab)) by {
                        if l2.contains(ab) {
                            assert(l2.to_set().contains(ab));
                            assert(l0.to_set().contains(ab));
                            assert(g[c[k as int].name].neighbors.contains(ab));
                        }
                    }
                    lemma_push_new(l2, ab);
                    assert(arena_names(c3) =~= arena_names(c));
                    assert forall|j: int| 0 <= j < c3.len() implies (
                    #[trigger] c3[j]).links.no_duplicates() by {
                        if j != k {
                            assert(c3[j] == c[j]);
                        }
                    }
                    assert forall|j: int| 0 <= j < k + 1 implies rewired(
                        a2[j],
                        #[trigger] c3[j],
                        a,
                        b,
                        nb,
                    ) by {
                        if j < k {
                            assert(c3[j] == c[j]);
                        }
                    }
                }
            } else {
                proof {
                    assert(a2[k as int].links.no_duplicates());
                }
            }
            k = k + 1;
        }
        let ghost c = self.arena();
        proof {
            assert(arena_names(c) =~= arena_names(a2));
            assert(graph_of(c).dom() =~= graph_of(a2).dom());
            assert(arena_values(c) =~= arena_values(a2));
            lemma_arena_push(c, fused@);
            lemma_sum_push(arena_values(c), fused.gdp as int, ident());
        }
        self.regions.push(fused);
        proof {
            let f = self.arena();
            assert(f =~= c.push(fused@));
            let h = fuse_spec(g, a, b);
            assert forall|x: Seq<char>| #[trigger] self@.dom().contains(x) implies self@[x]
                == h[x] by {
                if x != ab {
                    let j = choose|j: int| 0 <= j < arena_names(c).len() && arena_names(c)[j] == x;
                    lemma_graph_of_at(c, j);
                    lemma_graph_of_at(a2, j);
                    assert(rewired(a2[j], c[j], a, b, nb));
                }
            }
            assert(self@ =~= h);
            assert forall|j: int| 0 <= j < a2.len() implies #[trigger] f[j] == rewired_view(
                a2[j],
                a,
                b,
                fused_neighbors(g, a, b),
            ) by {
                assert(f[j] == c[j]);
                assert(rewired(a2[j], c[j], a, b, nb));
            }
            assert(f[f.len() - 1] == fused@);
        }
    }
}

impl Clone for Country {
    /// A country with the same regions, in the same order.
    fn clone(&self) -> (r: Self)
        ensures
            r.arena() == self.arena(),
    {
        let mut regions: Vec<Region> = Vec::new();
        let mut i: usize = 0;
        while i < self.regions.len()
            invariant
                i <= self.regions@.len(),
                regions@.len() == i,
                forall|j: int| 0 <= j < i ==> regions@[j]@ == self.regions@[j]@,
            decreases self.regions@.len() - i,
        {
            regions.push(self.regions[i].clone());
            i = i + 1;
        }
        let r = Country { regions };
        assert(r.arena() =~= self.arena());
        r
    }
}

} // verus!
