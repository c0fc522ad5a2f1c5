//! Connected countries: where a walk leads from every region to every
//! other, fusions reach a partition into any number of clusters from one
//! to the number of regions.

use vstd::prelude::*;
use crate::graph::Node;
use crate::graph::adjacent;
use crate::graph::after_fusion;
use crate::graph::connected;
use crate::graph::fusable;
use crate::graph::fuse_spec;
use crate::graph::fuses_to;
use crate::graph::graph_wf;
use crate::graph::is_walk;
use crate::graph::lemma_fuse_keeps_connected;
use crate::graph::lemma_fuse_preserves_validity;
use crate::graph::lemma_partition_after_step;
use crate::graph::lemma_partition_of_itself;
use crate::graph::linked;
use crate::graph::ordered_partition_of;
use crate::text::joined;
use crate::text::lemma_lex_decides;
use crate::text::lex_lt;

verus! {

/// A walk leads from every node of `g` to every other.
pub open spec fn all_connected(g: Map<Seq<char>, Node>) -> bool {
    forall|x: Seq<char>, y: Seq<char>|
        g.dom().contains(x) && g.dom().contains(y) ==> #[trigger] connected(g, x, y)
}

/// A walk whose node at `i` differs from its last node passes, from `i`
/// on, from a node to an adjacent one.
pub proof fn lemma_walk_has_edge(g: Map<Seq<char>, Node>, walk: Seq<Seq<char>>, i: int) -> (at: int)
    requires
        is_walk(g, walk),
        0 <= i < walk.len(),
        walk[i] != walk[walk.len() - 1],
    ensures
        i <= at < walk.len() - 1,
        adjacent(g, walk[at], walk[at + 1]),
    decreases walk.len() - i,
{
    assert(linked(g, walk[i], walk[i + 1]));
    if walk[i] != walk[i + 1] {
        i
    } else {
        lemma_walk_has_edge(g, walk, i + 1)
    }
}

/// A connected model with two nodes or more has two adjacent nodes.
pub proof fn lemma_connected_has_pair(g: Map<Seq<char>, Node>) -> (pair: (Seq<char>, Seq<char>))
    requires
        g.dom().finite(),
        all_connected(g),
        g.dom().len() >= 2,
    ensures
        adjacent(g, pair.0, pair.1),
{
    let x = g.dom().choose();
    let rest = g.dom().remove(x);
    let y = rest.choose();
    assert(rest.len() >= 1);
    assert(rest.contains(y));
    assert(connected(g, x, y));
    let walk = choose|walk: Seq<Seq<char>>| #[trigger]
        is_walk(g, walk) && walk[0] == x && walk[walk.len() - 1] == y;
    let at = lemma_walk_has_edge(g, walk, 0);
    (walk[at], walk[at + 1])
}

/// The fusion of two adjacent nodes of a connected model leaves a
/// connected model.
pub proof fn lemma_fuse_keeps_all_connected(g: Map<Seq<char>, Node>, a: Seq<char>, b: Seq<char>)
    requires
        graph_wf(g),
        all_connected(g),
        adjacent(g, a, b),
    ensures
        all_connected(fuse_spec(g, a, b)),
{
    let h = fuse_spec(g, a, b);
    let ab = joined(a, b);
    lemma_fuse_preserves_validity(g, a, b);
    assert forall|x: Seq<char>, y: Seq<char>|
        h.dom().contains(x) && h.dom().contains(y) implies #[trigger] connected(h, x, y) by {
        let px = if x == ab { a } else { x };
        let py = if y == ab { a } else { y };
        assert(connected(g, px, py));
        lemma_fuse_keeps_connected(g, a, b, px, py);
        assert(after_fusion(a, b, px) == x);
        assert(after_fusion(a, b, py) == y);
    }
}

/// Fusions reach, from a connected valid model, a partition into any
/// number of clusters from one to the number of its nodes.
pub proof fn lemma_connected_has_partition(g: Map<Seq<char>, Node>, t: nat) -> (h: Map<
    Seq<char>,
    Node,
>)
    requires
        graph_wf(g),
        all_connected(g),
        1 <= t <= g.dom().len(),
    ensures
        ordered_partition_of(g, h, t),
    decreases g.dom().len() - t,
{
    if t == g.dom().len() {
        lemma_partition_of_itself(g, true);
        g
    } else {
        let pair = lemma_connected_has_pair(g);
        let a = pair.0;
        let b = pair.1;
        assert(g[a].neighbors.contains(b));
        lemma_lex_decides(a, b);
        let lo = if lex_lt(a, b) { a } else { b };
        let hi = if lex_lt(a, b) { b } else { a };
        assert(fusable(g, lo, hi, true));
        let m = fuse_spec(g, lo, hi);
        lemma_fuse_preserves_validity(g, lo, hi);
        lemma_fuse_keeps_all_connected(g, lo, hi);
        let h = lemma_connected_has_partition(m, t);
        assert(fuses_to(g, m, true));
        lemma_partition_after_step(g, m, h, t, true);
        h
    }
}

} // verus!
