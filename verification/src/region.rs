//! A region of the graph: an identifier, a value and the identifiers of
//! its neighbours.

use vstd::prelude::*;
use crate::text::joined;
use crate::text::lemma_ascending_is_unique;
use crate::text::lemma_lex_decides;
use crate::text::lemma_lex_transitive;
use crate::text::lex_lt;
use crate::text::name_lt;
use crate::text::strictly_ascending;

verus! {

/// The scalar that a region carries.
pub type Money = u64;

/// A node of the graph.
#[derive(Debug)]
pub struct Region {
    pub name: String,
    pub gdp: Money,
    pub links: Vec<String>,
}

/// What a region holds, as plain mathematical values.
pub struct RegionView {
    pub name: Seq<char>,
    pub gdp: nat,
    pub links: Seq<Seq<char>>,
}

impl RegionView {
    /// The set of neighbour identifiers.
    pub open spec fn neighbors(self) -> Set<Seq<char>> {
        self.links.to_set()
    }
}

/// The identifiers that a list of strings spells.
pub open spec fn names_of(v: Seq<String>) -> Seq<Seq<char>> {
    Seq::new(v.len(), |i: int| v[i]@)
}

impl View for Region {
    type V = RegionView;

    open spec fn view(&self) -> RegionView {
        RegionView { name: self.name@, gdp: self.gdp as nat, links: names_of(self.links@) }
    }
}

/// Position of the first occurrence of `name` in `list`, if it occurs.
pub fn position_of(list: &Vec<String>, name: &String) -> (r: Option<usize>)
    ensures
        match r {
            Some(p) => p < list.len() && list[p as int]@ == name@ && forall|j: int|
                0 <= j < p ==> list[j]@ != name@,
            None => !names_of(list@).contains(name@),
        },
{
    let mut i: usize = 0;
    while i < list.len()
        invariant
            i <= list.len(),
            forall|j: int| 0 <= j < i ==> list[j]@ != name@,
        decreases list.len() - i,
    {
        if list[i] == *name {
            return Some(i);
        }
        i = i + 1;
    }
    assert(!names_of(list@).contains(name@)) by {
        if names_of(list@).contains(name@) {
            let j = choose|j: int| 0 <= j < names_of(list@).len() && names_of(list@)[j] == name@;
            assert(list[j]@ != name@);
        }
    }
    None
}

/// The identifiers of a list that grew by one string.
pub proof fn lemma_names_push(v: Seq<String>, x: String)
    ensures
        names_of(v.push(x)) == names_of(v).push(x@),
        names_of(v.push(x)).to_set() == names_of(v).to_set().insert(x@),
{
    assert(names_of(v.push(x)) =~= names_of(v).push(x@));
    names_of(v).lemma_push_to_set_commute(x@);
}

/// Puts into `dst`, each at its place in the order of identifiers, the
/// identifiers of `src` that are neither `a` nor `b` and that `dst` does
/// not hold yet.
fn gather_links(dst: &mut Vec<String>, src: &Vec<String>, a: &String, b: &String)
    requires
        strictly_ascending(names_of(old(dst)@)),
    ensures
        strictly_ascending(names_of(final(dst)@)),
        names_of(final(dst)@).to_set() == names_of(old(dst)@).to_set().union(
            names_of(src@).to_set().remove(a@).remove(b@),
        ),
{
    let mut i: usize = 0;
    assert(src@.take(0) =~= Seq::<String>::empty());
    assert(names_of(src@.take(0)).to_set() =~= Set::<Seq<char>>::empty());
    assert(names_of(dst@).to_set() =~= names_of(old(dst)@).to_set().union(
        names_of(src@.take(0)).to_set().remove(a@).remove(b@),
    ));
    while i < src.len()
        invariant
            i <= src.len(),
            strictly_ascending(names_of(dst@)),
            names_of(dst@).to_set() == names_of(old(dst)@).to_set().union(
                names_of(src@.take(i as int)).to_set().remove(a@).remove(b@),
            ),
        decreases src.len() - i,
    {
        proof {
            assert(src@.take(i + 1) =~= src@.take(i as int).push(src@[i as int]));
            lemma_names_push(src@.take(i as int), src@[i as int]);
        }
        if !(src[i] == *a) && !(src[i] == *b) {
            insert_in_order(dst, &src[i]);
        }
        assert(names_of(dst@).to_set() =~= names_of(old(dst)@).to_set().union(
            names_of(src@.take(i + 1)).to_set().remove(a@).remove(b@),
        ));
        i = i + 1;
    }
    assert(src@.take(src.len() as int) =~= src@);
}

/// Puts `name` into the ascending list `dst` at its place, unless the
/// list holds it already.
pub fn insert_in_order(dst: &mut Vec<String>, name: &String)
    requires
        strictly_ascending(names_of(old(dst)@)),
    ensures
        strictly_ascending(names_of(final(dst)@)),
        names_of(final(dst)@).to_set() == names_of(old(dst)@).to_set().insert(name@),
{
    let ghost before = dst@;
    let ghost names = names_of(before);
    let mut p: usize = 0;
    while p < dst.len() && name_lt(&dst[p], name)
        invariant
            p <= dst@.len(),
            dst@ == before,
            names == names_of(before),
            forall|j: int| 0 <= j < p ==> lex_lt(#[trigger] names[j], name@),
        decreases dst@.len() - p,
    {
        proof {
            assert(names[p as int] == dst@[p as int]@);
        }
        p = p + 1;
    }
    let present = p < dst.len() && dst[p] == *name;
    proof {
        if p < dst@.len() {
            assert(names[p as int] == dst@[p as int]@);
        }
    }
    if present {
        proof {
            assert(names.to_set().contains(name@));
            assert(names.to_set().insert(name@) =~= names.to_set());
        }
    } else {
        let copy = name.clone();
        dst.insert(p, copy);
        proof {
            let after = names_of(dst@);
            assert(after =~= names.insert(p as int, name@));
            assert forall|i: int, j: int| 0 <= i < j < after.len() implies lex_lt(
                #[trigger] after[i],
                #[trigger] after[j],
            ) by {
                let ii = if i < p { i } else { i - 1 };
                let jj = if j < p { j } else { j - 1 };
                if i != p && j != p {
                    assert(lex_lt(names[ii], names[jj]));
                } else if j == p {
                    assert(lex_lt(names[ii], name@));
                } else {
                    lemma_lex_decides(names[p as int], name@);
                    assert(lex_lt(name@, names[p as int]));
                    if jj > p {
                        assert(lex_lt(names[p as int], names[jj]));
                        lemma_lex_transitive(name@, names[p as int], names[jj]);
                    }
                }
            }
            assert forall|y: Seq<char>| #[trigger]
                after.to_set().contains(y) <==> names.to_set().insert(name@).contains(y) by {
                if after.contains(y) {
                    let k = choose|k: int| 0 <= k < after.len() && after[k] == y;
                    if k < p {
                        assert(names[k] == y);
                    } else if k > p {
                        assert(names[k - 1] == y);
                    }
                }
                if names.contains(y) {
                    let k = choose|k: int| 0 <= k < names.len() && names[k] == y;
                    let kk = if k < p { k } else { k + 1 };
                    assert(after[kk] == y);
                }
                if y == name@ {
                    assert(after[p as int] == y);
                }
            }
            assert(after.to_set() =~= names.to_set().insert(name@));
        }
    }
}

impl Region {
    /// Whether `name` is among this region's neighbours.
    pub fn has_link(&self, name: &String) -> (r: bool)
        ensures
            r == self@.neighbors().contains(name@),
    {
        let found = position_of(&self.links, name);
        proof {
            if found is Some {
                assert(names_of(self.links@)[found->0 as int] == name@);
            }
        }
        found.is_some()
    }

    /// Contracts two adjacent regions into one. The result is named by the
    /// two identifiers joined with the separator, carries the sum of the
    /// two values, and neighbours every neighbour of either, the two
    /// regions themselves left out, each listed once, in the order of
    /// identifiers.
    pub fn fuse(self, other: Region) -> (r: Region)
        requires
            self@.neighbors().contains(other@.name),
            other@.neighbors().contains(self@.name),
            self.gdp + other.gdp <= u64::MAX,
        ensures
            r@.name == joined(self@.name, other@.name),
            r@.gdp == self@.gdp + other@.gdp,
            strictly_ascending(r@.links),
            r@.links.no_duplicates(),
            r@.neighbors() == self@.neighbors().union(other@.neighbors()).remove(
                self@.name,
            ).remove(other@.name),
    {
        let mut links: Vec<String> = Vec::new();
        gather_links(&mut links, &self.links, &self.name, &other.name);
        gather_links(&mut links, &other.links, &self.name, &other.name);
        let mut name = self.name.clone();
        proof {
            reveal_strlit("-");
        }
        name.append("-");
        name.append(other.name.as_str());
        assert(name@ =~= joined(self@.name, other@.name));
        proof {
            lemma_ascending_is_unique(names_of(links@));
        }
        let r = Region { name, gdp: self.gdp + other.gdp, links };
        assert(r@.neighbors() =~= self@.neighbors().union(other@.neighbors()).remove(
            self@.name,
        ).remove(other@.name));
        r
    }
}

impl Clone for Region {
    /// A region with the same identifier, value and neighbours.
    fn clone(&self) -> (r: Self)
        ensures
            r@ == self@,
    {
        let links = self.links.clone();
        assert(names_of(links@) =~= names_of(self.links@));
        Region { name: self.name.clone(), gdp: self.gdp, links }
    }
}

} // verus!
