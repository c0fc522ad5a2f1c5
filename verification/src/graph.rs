//! The mathematical model of a country: a finite map from identifiers to
//! nodes, and the contraction of two adjacent nodes.

use vstd::prelude::*;
use vstd::multiset::Multiset;
use crate::text::joined;
use crate::text::lex_lt;
use crate::text::separator;

verus! {

/// A node of the model: its value and the identifiers of its neighbours.
pub struct Node {
    pub value: nat,
    pub neighbors: Set<Seq<char>>,
}

/// `a` and `b` are nodes of `g`, and `a` lists `b`.
pub open spec fn adjacent(g: Map<Seq<char>, Node>, a: Seq<char>, b: Seq<char>) -> bool {
    g.dom().contains(a) && g.dom().contains(b) && g[a].neighbors.contains(b)
}

/// Every listed neighbour exists, is another node, and lists the node back.
pub open spec fn symmetric(g: Map<Seq<char>, Node>) -> bool {
    forall|a: Seq<char>, b: Seq<char>|
        g.dom().contains(a) && #[trigger] g[a].neighbors.contains(b) ==> a != b
            && g.dom().contains(b) && g[b].neighbors.contains(a)
}

/// No identifier begins with another identifier followed by the separator.
/// This is what keeps the identifier of a fused region from colliding with
/// one that is already in use.
pub open spec fn separable(g: Map<Seq<char>, Node>) -> bool {
    forall|x: Seq<char>, y: Seq<char>|
        g.dom().contains(x) && g.dom().contains(y) && x != y ==> !#[trigger] x.push(
            separator(),
        ).is_prefix_of(y)
}

/// Validity of a model: finitely many nodes, symmetric adjacency without
/// self-loops, and separable identifiers.
pub open spec fn graph_wf(g: Map<Seq<char>, Node>) -> bool {
    &&& g.dom().finite()
    &&& symmetric(g)
    &&& separable(g)
}

/// The neighbours of the fusion of `a` and `b`: those of either, without
/// `a` and `b` themselves.
pub open spec fn fused_neighbors(g: Map<Seq<char>, Node>, a: Seq<char>, b: Seq<char>) -> Set<
    Seq<char>,
> {
    g[a].neighbors.union(g[b].neighbors).remove(a).remove(b)
}

/// The node that stands for `a` and `b` after their fusion.
pub open spec fn fused_node(g: Map<Seq<char>, Node>, a: Seq<char>, b: Seq<char>) -> Node {
    Node { value: g[a].value + g[b].value, neighbors: fused_neighbors(g, a, b) }
}

/// A node other than `a` and `b` after their fusion: a neighbour of either
/// lists the fused node in their place, any other node is unchanged.
pub open spec fn rewired_node(g: Map<Seq<char>, Node>, a: Seq<char>, b: Seq<char>, k: Seq<char>)
    -> Node {
    if fused_neighbors(g, a, b).contains(k) {
        Node {
            value: g[k].value,
            neighbors: g[k].neighbors.remove(a).remove(b).insert(joined(a, b)),
        }
    } else {
        g[k]
    }
}

/// The model after the fusion of `a` and `b`.
pub open spec fn fuse_spec(g: Map<Seq<char>, Node>, a: Seq<char>, b: Seq<char>) -> Map<
    Seq<char>,
    Node,
> {
    Map::new(
        |k: Seq<char>| k == joined(a, b) || (g.dom().contains(k) && k != a && k != b),
        |k: Seq<char>|
            if k == joined(a, b) {
                fused_node(g, a, b)
            } else {
                rewired_node(g, a, b, k)
            },
    )
}

/// In a valid model the identifier of a fusion is not in use.
pub proof fn lemma_joined_is_fresh(g: Map<Seq<char>, Node>, a: Seq<char>, b: Seq<char>)
    requires
        separable(g),
        g.dom().contains(a),
    ensures
        !g.dom().contains(joined(a, b)),
{
    let ab = joined(a, b);
    assert(a.push(separator()).is_prefix_of(ab));
    assert(ab.len() == a.len() + 1 + b.len());
}

/// Separable identifiers stay separable under fusion.
pub proof fn lemma_fuse_keeps_separable(g: Map<Seq<char>, Node>, a: Seq<char>, b: Seq<char>)
    requires
        separable(g),
        g.dom().contains(a),
        g.dom().contains(b),
    ensures
        separable(fuse_spec(g, a, b)),
{
    let ab = joined(a, b);
    let h = fuse_spec(g, a, b);
    let sep = separator();
    lemma_joined_is_fresh(g, a, b);
    assert forall|x: Seq<char>, y: Seq<char>|
        h.dom().contains(x) && h.dom().contains(y) && x != y implies !#[trigger] x.push(
        sep,
    ).is_prefix_of(y) by {
        if x.push(sep).is_prefix_of(y) {
            if x == ab {
                // then `a` with the separator begins `y`
                assert(a.push(sep).is_prefix_of(x));
                assert(a.push(sep) =~= y.subrange(0, a.len() as int + 1)) by {
                    assert forall|i: int| 0 <= i < a.len() + 1 implies a.push(sep)[i] == y[i] by {
                        assert(x.push(sep)[i] == y[i]);
                        assert(x[i] == a.push(sep)[i]);
                    }
                }
                assert(a.push(sep).is_prefix_of(y));
            } else if y == ab {
                let xs = x.push(sep);
                if xs.len() <= a.len() {
                    assert(xs =~= a.subrange(0, xs.len() as int)) by {
                        assert forall|i: int| 0 <= i < xs.len() implies xs[i] == a[i] by {
                            assert(xs[i] == y[i]);
                        }
                    }
                    assert(xs.is_prefix_of(a));
                } else if x.len() == a.len() {
                    assert(x =~= a) by {
                        assert forall|i: int| 0 <= i < x.len() implies x[i] == a[i] by {
                            assert(xs[i] == y[i]);
                        }
                    }
                } else {
                    let aps = a.push(sep);
                    assert(aps =~= x.subrange(0, aps.len() as int)) by {
                        assert forall|i: int| 0 <= i < aps.len() implies aps[i] == x[i] by {
                            assert(xs[i] == y[i]);
                        }
                    }
                    assert(aps.is_prefix_of(x));
                }
            }
        }
    }
}

/// Symmetric adjacency stays symmetric under the fusion of two adjacent
/// nodes.
pub proof fn lemma_fuse_keeps_symmetric(g: Map<Seq<char>, Node>, a: Seq<char>, b: Seq<char>)
    requires
        symmetric(g),
        separable(g),
        adjacent(g, a, b),
    ensures
        symmetric(fuse_spec(g, a, b)),
{
    let ab = joined(a, b);
    let h = fuse_spec(g, a, b);
    lemma_joined_is_fresh(g, a, b);
    assert forall|x: Seq<char>, y: Seq<char>|
        h.dom().contains(x) && #[trigger] h[x].neighbors.contains(y) implies x != y
        && h.dom().contains(y) && h[y].neighbors.contains(x) by {
        if x == ab {
            assert(g[a].neighbors.contains(y) || g[b].neighbors.contains(y));
        } else if y == ab {
            assert(fused_neighbors(g, a, b).contains(x));
        } else {
            assert(g[x].neighbors.contains(y));
        }
    }
}

/// Fusing two adjacent nodes of a valid model gives a valid model with
/// exactly one node fewer.
pub proof fn lemma_fuse_preserves_validity(g: Map<Seq<char>, Node>, a: Seq<char>, b: Seq<char>)
    requires
        graph_wf(g),
        adjacent(g, a, b),
    ensures
        graph_wf(fuse_spec(g, a, b)),
        fuse_spec(g, a, b).dom().len() + 1 == g.dom().len(),
        !g.dom().contains(joined(a, b)),
        a != b,
{
    lemma_joined_is_fresh(g, a, b);
    lemma_fuse_keeps_separable(g, a, b);
    lemma_fuse_keeps_symmetric(g, a, b);
    assert(fuse_spec(g, a, b).dom() =~= g.dom().remove(a).remove(b).insert(joined(a, b)));
}

/// `u` and `v` are the same node of `g`, or adjacent nodes of it.
pub open spec fn linked(g: Map<Seq<char>, Node>, u: Seq<char>, v: Seq<char>) -> bool {
    (u == v && g.dom().contains(u)) || adjacent(g, u, v)
}

/// Each node of `walk` is linked to the next.
pub open spec fn is_walk(g: Map<Seq<char>, Node>, walk: Seq<Seq<char>>) -> bool {
    &&& walk.len() >= 1
    &&& g.dom().contains(walk[0])
    &&& forall|i: int| 0 <= i < walk.len() - 1 ==> linked(g, #[trigger] walk[i], walk[i + 1])
}

/// A walk leads from `x` to `y` in `g`.
pub open spec fn connected(g: Map<Seq<char>, Node>, x: Seq<char>, y: Seq<char>) -> bool {
    exists|walk: Seq<Seq<char>>| #[trigger]
        is_walk(g, walk) && walk[0] == x && walk[walk.len() - 1] == y
}

/// What stands for the node `k` after the fusion of `a` and `b`: the
/// fused node for `a` and for `b`, the node itself for any other.
pub open spec fn after_fusion(a: Seq<char>, b: Seq<char>, k: Seq<char>) -> Seq<char> {
    if k == a || k == b {
        joined(a, b)
    } else {
        k
    }
}

/// Linked nodes stay linked under the fusion of two adjacent nodes.
pub proof fn lemma_fuse_keeps_link(
    g: Map<Seq<char>, Node>,
    a: Seq<char>,
    b: Seq<char>,
    u: Seq<char>,
    v: Seq<char>,
)
    requires
        graph_wf(g),
        adjacent(g, a, b),
        linked(g, u, v),
    ensures
        linked(fuse_spec(g, a, b), after_fusion(a, b, u), after_fusion(a, b, v)),
{
    lemma_joined_is_fresh(g, a, b);
    if u != v {
        assert(g[u].neighbors.contains(v));
        assert(g[v].neighbors.contains(u));
    }
}

/// Fusion disconnects nothing: where a walk led from `x` to `y`, a walk
/// leads from what stands for `x` to what stands for `y`.
pub proof fn lemma_fuse_keeps_connected(
    g: Map<Seq<char>, Node>,
    a: Seq<char>,
    b: Seq<char>,
    x: Seq<char>,
    y: Seq<char>,
)
    requires
        graph_wf(g),
        adjacent(g, a, b),
        connected(g, x, y),
    ensures
        connected(fuse_spec(g, a, b), after_fusion(a, b, x), after_fusion(a, b, y)),
{
    let walk = choose|walk: Seq<Seq<char>>| #[trigger]
        is_walk(g, walk) && walk[0] == x && walk[walk.len() - 1] == y;
    let h = fuse_spec(g, a, b);
    let moved = Seq::new(walk.len(), |i: int| after_fusion(a, b, walk[i]));
    assert forall|i: int| 0 <= i < moved.len() - 1 implies linked(
        h,
        #[trigger] moved[i],
        moved[i + 1],
    ) by {
        assert(linked(g, walk[i], walk[i + 1]));
        lemma_fuse_keeps_link(g, a, b, walk[i], walk[i + 1]);
    }
    assert(is_walk(h, moved));
}

/// The values of the nodes, by identifier.
pub open spec fn value_map(g: Map<Seq<char>, Node>) -> Map<Seq<char>, int> {
    Map::new(|k: Seq<char>| g.dom().contains(k), |k: Seq<char>| g[k].value as int)
}

/// The multiset of the values that a finite map holds.
pub open spec fn bag_of(m: Map<Seq<char>, int>) -> Multiset<int>
    decreases m.dom().len(),
{
    if m.dom().finite() && m.dom().len() > 0 {
        let k = m.dom().choose();
        bag_of(m.remove(k)).insert(m[k])
    } else {
        Multiset::empty()
    }
}

/// The multiset of the values of the nodes.
pub open spec fn value_bag(g: Map<Seq<char>, Node>) -> Multiset<int> {
    bag_of(value_map(g))
}

/// The multiset of values is that of the map without one key, plus the
/// value under that key.
pub proof fn lemma_bag_remove(m: Map<Seq<char>, int>, k: Seq<char>)
    requires
        m.dom().finite(),
        m.dom().contains(k),
    ensures
        bag_of(m) == bag_of(m.remove(k)).insert(m[k]),
    decreases m.dom().len(),
{
    let c = m.dom().choose();
    if c != k {
        lemma_bag_remove(m.remove(c), k);
        lemma_bag_remove(m.remove(k), c);
        assert(m.remove(c).remove(k) =~= m.remove(k).remove(c));
        let x = bag_of(m.remove(c).remove(k));
        assert(x.insert(m[k]).insert(m[c]) =~= x.insert(m[c]).insert(m[k]));
    }
}

/// Fusion takes the two values out of the multiset of values and puts
/// their sum in.
pub proof fn lemma_fuse_value_bag(g: Map<Seq<char>, Node>, a: Seq<char>, b: Seq<char>)
    requires
        graph_wf(g),
        adjacent(g, a, b),
    ensures
        value_bag(fuse_spec(g, a, b)).insert(g[a].value as int).insert(g[b].value as int)
            == value_bag(g).insert((g[a].value + g[b].value) as int),
{
    let h = fuse_spec(g, a, b);
    let ab = joined(a, b);
    lemma_fuse_preserves_validity(g, a, b);
    let vm = value_map(g);
    let vh = value_map(h);
    assert(vm.dom() =~= g.dom());
    assert(vh.dom() =~= h.dom());
    lemma_bag_remove(vh, ab);
    lemma_bag_remove(vm, a);
    lemma_bag_remove(vm.remove(a), b);
    assert(vh.remove(ab) =~= vm.remove(a).remove(b));
    let x = bag_of(vh.remove(ab));
    let va = g[a].value as int;
    let vb = g[b].value as int;
    assert(x.insert(va + vb).insert(va).insert(vb) =~= x.insert(vb).insert(va).insert(va + vb));
}

/// `a` and `b` may be fused: they are adjacent and, with `ordered`, `a` is
/// the one with the smaller identifier.
pub open spec fn fusable(g: Map<Seq<char>, Node>, a: Seq<char>, b: Seq<char>, ordered: bool) -> bool {
    adjacent(g, a, b) && (ordered ==> lex_lt(a, b))
}

/// Ordered fusions take each pair of adjacent nodes once: of the two
/// ways to name the pair, exactly one names the smaller identifier first.
pub proof fn lemma_each_pair_once(g: Map<Seq<char>, Node>, a: Seq<char>, b: Seq<char>)
    requires
        symmetric(g),
        adjacent(g, a, b),
    ensures
        fusable(g, a, b, true) != fusable(g, b, a, true),
{
    crate::text::lemma_lex_decides(a, b);
    assert(g[a].neighbors.contains(b));
}

/// `h` is `g` after one fusion.
pub open spec fn fuses_to(g: Map<Seq<char>, Node>, h: Map<Seq<char>, Node>, ordered: bool) -> bool {
    exists|a: Seq<char>, b: Seq<char>| fusable(g, a, b, ordered) && h == #[trigger] fuse_spec(g, a, b)
}

/// Each model of `path` but the first is the one before it after one
/// fusion.
pub open spec fn fusion_path(path: Seq<Map<Seq<char>, Node>>, ordered: bool) -> bool {
    forall|i: int| 0 <= i < path.len() - 1 ==> fuses_to(#[trigger] path[i], path[i + 1], ordered)
}

/// `path` leads from `g` to `h` by fusions.
pub open spec fn leads(
    path: Seq<Map<Seq<char>, Node>>,
    g: Map<Seq<char>, Node>,
    h: Map<Seq<char>, Node>,
    ordered: bool,
) -> bool {
    path.len() >= 1 && path[0] == g && path[path.len() - 1] == h && fusion_path(path, ordered)
}

/// `h` is a partition of `g` into `count` clusters that fusions reach:
/// it comes from `g` by fusions of adjacent nodes and has `count` nodes.
/// With `ordered`, each fusion names the node with the smaller identifier
/// first.
pub open spec fn partition_in(
    g: Map<Seq<char>, Node>,
    h: Map<Seq<char>, Node>,
    count: nat,
    ordered: bool,
) -> bool {
    h.dom().len() == count && exists|path: Seq<Map<Seq<char>, Node>>| leads(path, g, h, ordered)
}

/// `h` is a partition of `g` into `count` clusters: it comes from `g` by
/// fusions of adjacent nodes and has `count` nodes.
pub open spec fn partition_of(g: Map<Seq<char>, Node>, h: Map<Seq<char>, Node>, count: nat) -> bool {
    partition_in(g, h, count, false)
}

/// `h` is a partition of `g` into `count` clusters that the search
/// visits: each fusion names the node with the smaller identifier first.
pub open spec fn ordered_partition_of(
    g: Map<Seq<char>, Node>,
    h: Map<Seq<char>, Node>,
    count: nat,
) -> bool {
    partition_in(g, h, count, true)
}

/// A path of ordered fusions is a path of fusions.
pub proof fn lemma_ordered_is_path(path: Seq<Map<Seq<char>, Node>>)
    requires
        fusion_path(path, true),
    ensures
        fusion_path(path, false),
{
    assert forall|i: int| 0 <= i < path.len() - 1 implies fuses_to(
        #[trigger] path[i],
        path[i + 1],
        false,
    ) by {
        assert(fuses_to(path[i], path[i + 1], true));
        let (a, b) = choose|a: Seq<char>, b: Seq<char>|
            fusable(path[i], a, b, true) && path[i + 1] == #[trigger] fuse_spec(path[i], a, b);
        assert(fusable(path[i], a, b, false));
    }
}

/// Whatever a path from a valid model leads to is a valid model, with one
/// node fewer for each fusion.
pub proof fn lemma_path_is_valid(path: Seq<Map<Seq<char>, Node>>, i: int)
    requires
        path.len() >= 1,
        graph_wf(path[0]),
        fusion_path(path, false),
        0 <= i < path.len(),
    ensures
        graph_wf(path[i]),
        path[i].dom().len() + i == path[0].dom().len(),
    decreases i,
{
    if i > 0 {
        lemma_path_is_valid(path, i - 1);
        assert(fuses_to(path[i - 1], path[i], false));
        let (a, b) = choose|a: Seq<char>, b: Seq<char>|
            fusable(path[i - 1], a, b, false) && path[i] == #[trigger] fuse_spec(path[i - 1], a, b);
        lemma_fuse_preserves_validity(path[i - 1], a, b);
    }
}

/// A partition of what one fusion gives is a partition of the model that
/// was fused.
pub proof fn lemma_partition_after_step(
    g: Map<Seq<char>, Node>,
    m: Map<Seq<char>, Node>,
    h: Map<Seq<char>, Node>,
    count: nat,
    ordered: bool,
)
    requires
        fuses_to(g, m, ordered),
        partition_in(m, h, count, ordered),
    ensures
        partition_in(g, h, count, ordered),
{
    let tail = choose|path: Seq<Map<Seq<char>, Node>>| leads(path, m, h, ordered);
    let path = seq![g] + tail;
    assert forall|i: int| 0 <= i < path.len() - 1 implies fuses_to(
        #[trigger] path[i],
        path[i + 1],
        ordered,
    ) by {
        if i > 0 {
            assert(path[i] == tail[i - 1]);
            assert(path[i + 1] == tail[i]);
            assert(fuses_to(tail[i - 1], tail[i], ordered));
        } else {
            assert(path[1] == tail[0]);
        }
    }
    assert(path[path.len() - 1] == tail[tail.len() - 1]);
    assert(leads(path, g, h, ordered));
}

/// A path of fusions, whether ordered or not.
pub proof fn lemma_any_is_path(path: Seq<Map<Seq<char>, Node>>, ordered: bool)
    requires
        fusion_path(path, ordered),
    ensures
        fusion_path(path, false),
{
    if ordered {
        lemma_ordered_is_path(path);
    }
}

/// A partition of a valid model into fewer clusters than it has nodes is
/// a partition of what some first fusion gives.
pub proof fn lemma_partition_first_step(
    g: Map<Seq<char>, Node>,
    h: Map<Seq<char>, Node>,
    count: nat,
    ordered: bool,
) -> (first: (Seq<char>, Seq<char>))
    requires
        graph_wf(g),
        partition_in(g, h, count, ordered),
        count < g.dom().len(),
    ensures
        fusable(g, first.0, first.1, ordered),
        partition_in(fuse_spec(g, first.0, first.1), h, count, ordered),
{
    let path = choose|path: Seq<Map<Seq<char>, Node>>| leads(path, g, h, ordered);
    lemma_any_is_path(path, ordered);
    lemma_path_is_valid(path, path.len() - 1);
    assert(path.len() >= 2);
    assert(fuses_to(path[0], path[1], ordered));
    let (a, b) = choose|a: Seq<char>, b: Seq<char>|
        fusable(path[0], a, b, ordered) && path[1] == #[trigger] fuse_spec(path[0], a, b);
    let tail = path.skip(1);
    assert forall|i: int| 0 <= i < tail.len() - 1 implies fuses_to(
        #[trigger] tail[i],
        tail[i + 1],
        ordered,
    ) by {
        assert(tail[i] == path[i + 1]);
        assert(tail[i + 1] == path[i + 2]);
        assert(fuses_to(path[i + 1], path[i + 2], ordered));
    }
    assert(leads(tail, fuse_spec(g, a, b), h, ordered));
    (a, b)
}

/// What a partition of a valid model is: a valid model, with no more
/// clusters than the model has nodes; with as many, the model itself; and
/// with nodes, where the model has nodes.
pub proof fn lemma_partition_facts(
    g: Map<Seq<char>, Node>,
    h: Map<Seq<char>, Node>,
    count: nat,
    ordered: bool,
)
    requires
        graph_wf(g),
        partition_in(g, h, count, ordered),
    ensures
        graph_wf(h),
        count <= g.dom().len(),
        count == g.dom().len() ==> h == g,
        g.dom().len() >= 1 ==> count >= 1,
        partition_of(g, h, count),
{
    let path = choose|path: Seq<Map<Seq<char>, Node>>| leads(path, g, h, ordered);
    lemma_any_is_path(path, ordered);
    let last = path.len() - 1;
    lemma_path_is_valid(path, last);
    assert(leads(path, g, h, false));
    if last > 0 {
        lemma_path_is_valid(path, last - 1);
        assert(fuses_to(path[last - 1], path[last], false));
        let (a, b) = choose|a: Seq<char>, b: Seq<char>|
            fusable(path[last - 1], a, b, false) && path[last] == #[trigger] fuse_spec(
                path[last - 1],
                a,
                b,
            );
        assert(path[last].dom().contains(joined(a, b)));
    }
}

/// A model is its own partition into as many clusters as it has nodes.
pub proof fn lemma_partition_of_itself(g: Map<Seq<char>, Node>, ordered: bool)
    ensures
        partition_in(g, g, g.dom().len(), ordered),
{
    let path = seq![g];
    assert(leads(path, g, g, ordered));
}

} // verus!
