//! The order in which the two regions of a fusion are named changes the
//! identifiers and nothing else: every partition that fusions reach is,
//! up to identifiers, one that ordered fusions reach.

use vstd::prelude::*;
use crate::admissible::lemma_sorted_values;
use crate::admissible::sorted_values_of;
use crate::bound::lemma_ascending_is_sort;
use crate::graph::Node;
use crate::graph::adjacent;
use crate::graph::bag_of;
use crate::graph::fusable;
use crate::graph::fuse_spec;
use crate::graph::fused_neighbors;
use crate::graph::fuses_to;
use crate::graph::fusion_path;
use crate::graph::graph_wf;
use crate::graph::leads;
use crate::graph::lemma_bag_remove;
use crate::graph::lemma_fuse_preserves_validity;
use crate::graph::lemma_ordered_is_path;
use crate::graph::lemma_path_is_valid;
use crate::graph::ordered_partition_of;
use crate::graph::partition_of;
use crate::graph::value_map;
use crate::text::joined;
use crate::text::lemma_lex_decides;
use crate::text::lex_lt;

verus! {

/// A renaming of identifiers, with its inverse.
pub struct Relabeling {
    pub to: Map<Seq<char>, Seq<char>>,
    pub back: Map<Seq<char>, Seq<char>>,
}

/// `r` renames the nodes of `g` one to one onto the nodes of `h`.
pub open spec fn renames(r: Relabeling, g: Set<Seq<char>>, h: Set<Seq<char>>) -> bool {
    &&& r.to.dom() == g
    &&& r.back.dom() == h
    &&& forall|x: Seq<char>| g.contains(x) ==> h.contains(#[trigger] r.to[x]) && r.back[r.to[x]] == x
    &&& forall|k: Seq<char>|
        h.contains(k) ==> g.contains(#[trigger] r.back[k]) && r.to[r.back[k]] == k
}

/// `r` renames `g` into `h`: one to one, with the same values and the
/// same adjacency.
pub open spec fn relabels(r: Relabeling, g: Map<Seq<char>, Node>, h: Map<Seq<char>, Node>) -> bool {
    &&& renames(r, g.dom(), h.dom())
    &&& forall|x: Seq<char>| g.dom().contains(x) ==> h[#[trigger] r.to[x]].value == g[x].value
    &&& forall|x: Seq<char>, y: Seq<char>|
        #![trigger g[x].neighbors.contains(y)]
        #![trigger h[r.to[x]].neighbors.contains(r.to[y])]
        g.dom().contains(x) && g.dom().contains(y) ==> (g[x].neighbors.contains(y)
            <==> h[r.to[x]].neighbors.contains(r.to[y]))
}

/// The renaming that leaves every identifier of `g` as it is.
pub open spec fn same_labels(g: Map<Seq<char>, Node>) -> Relabeling {
    Relabeling {
        to: Map::new(|k: Seq<char>| g.dom().contains(k), |k: Seq<char>| k),
        back: Map::new(|k: Seq<char>| g.dom().contains(k), |k: Seq<char>| k),
    }
}

/// A model is a renaming of itself.
pub proof fn lemma_same_labels(g: Map<Seq<char>, Node>)
    ensures
        relabels(same_labels(g), g, g),
{
    let r = same_labels(g);
    assert(r.to.dom() =~= g.dom());
    assert(r.back.dom() =~= g.dom());
}

/// The two images of a pair, the smaller identifier first.
pub open spec fn in_order(a: Seq<char>, b: Seq<char>) -> (Seq<char>, Seq<char>) {
    if lex_lt(a, b) {
        (a, b)
    } else {
        (b, a)
    }
}

/// The renaming after a fusion on both sides: the fused node is renamed
/// into the fused node.
pub open spec fn relabel_fused(r: Relabeling, a: Seq<char>, b: Seq<char>) -> Relabeling {
    let pair = in_order(r.to[a], r.to[b]);
    Relabeling {
        to: r.to.remove(a).remove(b).insert(joined(a, b), joined(pair.0, pair.1)),
        back: r.back.remove(r.to[a]).remove(r.to[b]).insert(joined(pair.0, pair.1), joined(a, b)),
    }
}

/// A fusion in a model has its like in every renaming of the model: the
/// images of the two nodes, the smaller identifier first, may be fused,
/// and what comes of it is a renaming of what comes of the fusion.
pub proof fn lemma_relabel_step(
    g1: Map<Seq<char>, Node>,
    g2: Map<Seq<char>, Node>,
    r: Relabeling,
    a: Seq<char>,
    b: Seq<char>,
)
    requires
        graph_wf(g1),
        graph_wf(g2),
        relabels(r, g1, g2),
        adjacent(g1, a, b),
    ensures
        fusable(g2, in_order(r.to[a], r.to[b]).0, in_order(r.to[a], r.to[b]).1, true),
        relabels(
            relabel_fused(r, a, b),
            fuse_spec(g1, a, b),
            fuse_spec(g2, in_order(r.to[a], r.to[b]).0, in_order(r.to[a], r.to[b]).1),
        ),
{
    let a2 = r.to[a];
    let b2 = r.to[b];
    let lo = in_order(a2, b2).0;
    let hi = in_order(a2, b2).1;
    let ab = joined(a, b);
    let ab2 = joined(lo, hi);
    let h1 = fuse_spec(g1, a, b);
    let h2 = fuse_spec(g2, lo, hi);
    let q = relabel_fused(r, a, b);
    lemma_fuse_preserves_validity(g1, a, b);
    assert(g1[a].neighbors.contains(b));
    assert(g2[a2].neighbors.contains(b2));
    assert(a2 != b2);
    lemma_lex_decides(a2, b2);
    assert(g2[b2].neighbors.contains(a2));
    assert(adjacent(g2, lo, hi));
    lemma_fuse_preserves_validity(g2, lo, hi);
    let n1 = fused_neighbors(g1, a, b);
    let n2 = fused_neighbors(g2, lo, hi);
    assert(n2 =~= g2[a2].neighbors.union(g2[b2].neighbors).remove(a2).remove(b2));
    assert(q.to.dom() =~= h1.dom());
    assert(q.back.dom() =~= h2.dom());
    // what the renaming makes of each node but the fused one
    assert forall|x: Seq<char>| h1.dom().contains(x) && x != ab implies q.to[x] == r.to[x]
        && q.to[x] != a2 && q.to[x] != b2 && q.to[x] != ab2 && g2.dom().contains(q.to[x]) by {
        assert(r.back[r.to[x]] == x);
        assert(r.back[a2] == a);
        assert(r.back[b2] == b);
    }
    assert(q.to[ab] == ab2);
    // the neighbours of the fused node are renamed into those of the
    // fused node
    assert forall|y: Seq<char>| g1.dom().contains(y) && y != a && y != b implies (n1.contains(y)
        <==> n2.contains(r.to[y])) by {
        assert(g1[a].neighbors.contains(y) <==> g2[a2].neighbors.contains(r.to[y]));
        assert(g1[b].neighbors.contains(y) <==> g2[b2].neighbors.contains(r.to[y]));
        assert(r.back[r.to[y]] == y);
        assert(r.back[a2] == a);
        assert(r.back[b2] == b);
    }
    assert forall|y: Seq<char>| n1.contains(y) implies g1.dom().contains(y) by {
        assert(g1[a].neighbors.contains(y) || g1[b].neighbors.contains(y));
    }
    assert forall|y: Seq<char>| n2.contains(y) implies g2.dom().contains(y) by {
        assert(g2[a2].neighbors.contains(y) || g2[b2].neighbors.contains(y));
    }
    assert forall|x: Seq<char>| h1.dom().contains(x) implies h2.dom().contains(
        #[trigger] q.to[x],
    ) && q.back[q.to[x]] == x by {
        if x != ab {
            assert(r.back[r.to[x]] == x);
        }
    }
    assert forall|k: Seq<char>| h2.dom().contains(k) implies h1.dom().contains(
        #[trigger] q.back[k],
    ) && q.to[q.back[k]] == k by {
        if k != ab2 {
            assert(r.to[r.back[k]] == k);
            assert(q.back[k] == r.back[k]);
            assert(r.back[k] != a);
            assert(r.back[k] != b);
        }
    }
    assert forall|x: Seq<char>| h1.dom().contains(x) implies h2[#[trigger] q.to[x]].value
        == h1[x].value by {
        if x != ab {
            assert(h2[r.to[x]].value == g2[r.to[x]].value);
        } else {
            assert(g2[a2].value == g1[a].value);
            assert(g2[b2].value == g1[b].value);
        }
    }
    assert forall|x: Seq<char>, y: Seq<char>|
        #![trigger h1[x].neighbors.contains(y)]
        #![trigger h2[q.to[x]].neighbors.contains(q.to[y])]
        h1.dom().contains(x) && h1.dom().contains(y) implies (h1[x].neighbors.contains(y)
        <==> h2[q.to[x]].neighbors.contains(q.to[y])) by {
        if x == ab && y == ab {
            assert(!n1.contains(ab));
            assert(!n2.contains(ab2));
        } else if x == ab {
            assert(n1.contains(y) <==> n2.contains(r.to[y]));
        } else if y == ab {
            assert(n1.contains(x) <==> n2.contains(r.to[x]));
            assert(!g1[x].neighbors.contains(ab)) by {
                if g1[x].neighbors.contains(ab) {
                    assert(g1.dom().contains(ab));
                }
            }
            assert(!g2[r.to[x]].neighbors.contains(ab2)) by {
                if g2[r.to[x]].neighbors.contains(ab2) {
                    assert(g2.dom().contains(ab2));
                }
            }
        } else {
            assert(g1[x].neighbors.contains(y) <==> g2[r.to[x]].neighbors.contains(r.to[y]));
        }
    }
}

/// Every path of fusions has its like among the paths of ordered
/// fusions: one that starts at the same model and, step by step, leads to
/// a renaming of what the path leads to.
pub proof fn lemma_relabel_path(path: Seq<Map<Seq<char>, Node>>, i: int) -> (out: (
    Seq<Map<Seq<char>, Node>>,
    Relabeling,
))
    requires
        path.len() >= 1,
        graph_wf(path[0]),
        fusion_path(path, false),
        0 <= i < path.len(),
    ensures
        out.0.len() == i + 1,
        out.0[0] == path[0],
        fusion_path(out.0, true),
        graph_wf(out.0[i]),
        relabels(out.1, path[i], out.0[i]),
    decreases i,
{
    if i == 0 {
        lemma_same_labels(path[0]);
        (seq![path[0]], same_labels(path[0]))
    } else {
        let (before, r) = lemma_relabel_path(path, i - 1);
        lemma_path_is_valid(path, i - 1);
        assert(fuses_to(path[i - 1], path[i], false));
        let (a, b) = choose|a: Seq<char>, b: Seq<char>|
            fusable(path[i - 1], a, b, false) && path[i] == #[trigger] fuse_spec(path[i - 1], a, b);
        let g2 = before[i - 1];
        lemma_relabel_step(path[i - 1], g2, r, a, b);
        let pair = in_order(r.to[a], r.to[b]);
        let next = fuse_spec(g2, pair.0, pair.1);
        lemma_fuse_preserves_validity(g2, pair.0, pair.1);
        let longer = before.push(next);
        assert forall|j: int| 0 <= j < longer.len() - 1 implies fuses_to(
            #[trigger] longer[j],
            longer[j + 1],
            true,
        ) by {
            if j < i - 1 {
                assert(longer[j] == before[j]);
                assert(longer[j + 1] == before[j + 1]);
                assert(fuses_to(before[j], before[j + 1], true));
            } else {
                assert(longer[j] == g2);
                assert(longer[j + 1] == next);
            }
        }
        (longer, relabel_fused(r, a, b))
    }
}

/// `r` renames the keys of `m1` one to one onto the keys of `m2`, and
/// each renamed key holds the same value.
pub open spec fn same_values(r: Relabeling, m1: Map<Seq<char>, int>, m2: Map<Seq<char>, int>) -> bool {
    &&& renames(r, m1.dom(), m2.dom())
    &&& forall|x: Seq<char>| m1.dom().contains(x) ==> m2[#[trigger] r.to[x]] == m1[x]
}

/// Maps that hold the same values under renamed keys hold the same
/// multiset of values.
pub proof fn lemma_renamed_bag(r: Relabeling, m1: Map<Seq<char>, int>, m2: Map<Seq<char>, int>)
    requires
        m1.dom().finite(),
        m2.dom().finite(),
        same_values(r, m1, m2),
    ensures
        bag_of(m1) == bag_of(m2),
    decreases m1.dom().len(),
{
    if m1.dom().len() == 0 {
        assert(m2.dom() =~= Set::<Seq<char>>::empty()) by {
            assert forall|k: Seq<char>| !m2.dom().contains(k) by {
                if m2.dom().contains(k) {
                    assert(m1.dom().contains(r.back[k]));
                }
            }
        }
    } else {
        let k = m1.dom().choose();
        let k2 = r.to[k];
        lemma_bag_remove(m1, k);
        lemma_bag_remove(m2, k2);
        let q = Relabeling { to: r.to.remove(k), back: r.back.remove(k2) };
        let n1 = m1.remove(k);
        let n2 = m2.remove(k2);
        assert(q.to.dom() =~= n1.dom());
        assert(q.back.dom() =~= n2.dom());
        assert forall|x: Seq<char>| n1.dom().contains(x) implies n2.dom().contains(
            #[trigger] q.to[x],
        ) && q.back[q.to[x]] == x && n2[q.to[x]] == n1[x] by {
            assert(r.back[r.to[x]] == x);
            assert(r.back[k2] == k);
        }
        assert forall|y: Seq<char>| n2.dom().contains(y) implies n1.dom().contains(
            #[trigger] q.back[y],
        ) && q.to[q.back[y]] == y by {
            assert(r.to[r.back[y]] == y);
        }
        lemma_renamed_bag(q, n1, n2);
    }
}

/// Ordered fusions reach every partition, up to identifiers: whatever
/// partition fusions reach, ordered fusions reach one with the same
/// values.
pub proof fn lemma_ordered_fusions_reach_all(
    g: Map<Seq<char>, Node>,
    h: Map<Seq<char>, Node>,
    t: nat,
) -> (like: Map<Seq<char>, Node>)
    requires
        graph_wf(g),
        partition_of(g, h, t),
    ensures
        ordered_partition_of(g, like, t),
        sorted_values_of(like) == sorted_values_of(h),
{
    let path = choose|path: Seq<Map<Seq<char>, Node>>| leads(path, g, h, false);
    let last = path.len() - 1;
    let (ordered, r) = lemma_relabel_path(path, last);
    let like = ordered[last];
    lemma_path_is_valid(path, last);
    lemma_ordered_is_path(ordered);
    lemma_path_is_valid(ordered, last);
    assert(leads(ordered, g, like, true));
    let m1 = value_map(h);
    let m2 = value_map(like);
    assert(m1.dom() =~= h.dom());
    assert(m2.dom() =~= like.dom());
    assert(same_values(r, m1, m2));
    lemma_renamed_bag(r, m1, m2);
    lemma_sorted_values(h);
    lemma_sorted_values(like);
    lemma_ascending_is_sort(sorted_values_of(like), sorted_values_of(h));
    lemma_ascending_is_sort(sorted_values_of(h), sorted_values_of(h));
    like
}

} // verus!
