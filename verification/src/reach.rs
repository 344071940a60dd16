//! Walks, reachability and strongly connected components over an edge list.
//! A node is an index; an edge is a pair of indices, source first.

use vstd::prelude::*;

verus! {

/// Every edge joins two of the `nodes` nodes: no edge dangles.
pub open spec fn edges_in_bounds(nodes: nat, edges: Seq<(int, int)>) -> bool {
    forall|e: int|
        0 <= e < edges.len() ==> 0 <= (#[trigger] edges[e]).0 < nodes && 0 <= edges[e].1 < nodes
}

/// The graph has an edge from the node at position `i` of `walk` to the node
/// after it.
pub open spec fn walk_step(edges: Seq<(int, int)>, walk: Seq<int>, i: int) -> bool {
    edges.contains((walk[i], walk[i + 1]))
}

/// `walk` is a walk of the graph: a non-empty run of nodes, with an edge from
/// each node to the next.
pub open spec fn is_walk(edges: Seq<(int, int)>, walk: Seq<int>) -> bool {
    &&& walk.len() > 0
    &&& forall|i: int| 0 <= i < walk.len() - 1 ==> #[trigger] walk_step(edges, walk, i)
}

/// `walk` leads from `a` to `b`.
pub open spec fn walk_between(edges: Seq<(int, int)>, walk: Seq<int>, a: int, b: int) -> bool {
    &&& is_walk(edges, walk)
    &&& walk.first() == a
    &&& walk.last() == b
}

/// `b` can be reached from `a` along edges; every node reaches itself.
pub open spec fn reaches(edges: Seq<(int, int)>, a: int, b: int) -> bool {
    exists|walk: Seq<int>| walk_between(edges, walk, a, b)
}

/// Each of the two nodes can be reached from the other.
pub open spec fn mutually_reachable(edges: Seq<(int, int)>, a: int, b: int) -> bool {
    reaches(edges, a, b) && reaches(edges, b, a)
}

/// The graph has a cycle: a walk of at least one edge that ends where it
/// began.
pub open spec fn has_cycle(edges: Seq<(int, int)>) -> bool {
    exists|walk: Seq<int>| #[trigger]
        is_walk(edges, walk) && walk.len() >= 2 && walk.first() == walk.last()
}

/// Position `i` of component `k` exists.
pub open spec fn is_member(components: Seq<Seq<int>>, k: int, i: int) -> bool {
    0 <= k < components.len() && 0 <= i < components[k].len()
}

/// Component `k` holds node `v`.
pub open spec fn component_holds(components: Seq<Seq<int>>, k: int, v: int) -> bool {
    0 <= k < components.len() && components[k].contains(v)
}

/// Some component holds node `v`.
pub open spec fn is_placed(components: Seq<Seq<int>>, v: int) -> bool {
    exists|k: int| component_holds(components, k, v)
}

/// No node stands at two places of the components.
pub open spec fn components_disjoint(components: Seq<Seq<int>>) -> bool {
    forall|k: int, i: int, l: int, j: int|
        #![trigger components[k][i], components[l][j]]
        is_member(components, k, i) && is_member(components, l, j) && components[k][i]
            == components[l][j] ==> k == l && i == j
}

/// `components` are the strongly connected components of the graph: no
/// component is empty, every node stands at exactly one place, and two nodes
/// share a component exactly when each can be reached from the other.
pub open spec fn is_scc_decomposition(
    nodes: nat,
    edges: Seq<(int, int)>,
    components: Seq<Seq<int>>,
) -> bool {
    &&& forall|k: int| 0 <= k < components.len() ==> (#[trigger] components[k]).len() > 0
    &&& forall|k: int, i: int|
        is_member(components, k, i) ==> 0 <= #[trigger] components[k][i] < nodes
    &&& forall|v: int| 0 <= v < nodes ==> #[trigger] is_placed(components, v)
    &&& components_disjoint(components)
    &&& forall|k: int, i: int, l: int, j: int|
        #![trigger components[k][i], components[l][j]]
        is_member(components, k, i) && is_member(components, l, j) ==> (k == l
            <==> mutually_reachable(edges, components[k][i], components[l][j]))
}

/// A walk that stops where another begins goes on along it.
pub proof fn lemma_walks_join(
    edges: Seq<(int, int)>,
    first: Seq<int>,
    second: Seq<int>,
    a: int,
    b: int,
    c: int,
)
    requires
        walk_between(edges, first, a, b),
        walk_between(edges, second, b, c),
    ensures
        walk_between(edges, first + second.drop_first(), a, c),
{
    let joined = first + second.drop_first();
    assert forall|i: int| 0 <= i < joined.len() - 1 implies #[trigger] walk_step(
        edges,
        joined,
        i,
    ) by {
        if i < first.len() - 1 {
            assert(walk_step(edges, first, i));
        } else {
            let j = i - (first.len() - 1);
            assert(walk_step(edges, second, j));
            assert(joined[i] == second[j]);
            assert(joined[i + 1] == second[j + 1]);
        }
    }
    if second.len() == 1 {
        assert(joined =~= first);
    }
}

/// Reachability is transitive.
pub proof fn lemma_reaches_transitive(edges: Seq<(int, int)>, a: int, b: int, c: int)
    requires
        reaches(edges, a, b),
        reaches(edges, b, c),
    ensures
        reaches(edges, a, c),
{
    let first = choose|walk: Seq<int>| walk_between(edges, walk, a, b);
    let second = choose|walk: Seq<int>| walk_between(edges, walk, b, c);
    lemma_walks_join(edges, first, second, a, b, c);
    assert(walk_between(edges, first + second.drop_first(), a, c));
}

/// Every node of a walk is reached from its start and reaches its end.
pub proof fn lemma_walk_splits(edges: Seq<(int, int)>, walk: Seq<int>, at: int)
    requires
        is_walk(edges, walk),
        0 <= at < walk.len(),
    ensures
        walk_between(edges, walk.take(at + 1), walk.first(), walk[at]),
        walk_between(edges, walk.skip(at), walk[at], walk.last()),
        reaches(edges, walk.first(), walk[at]),
        reaches(edges, walk[at], walk.last()),
{
    let head = walk.take(at + 1);
    let tail = walk.skip(at);
    assert forall|i: int| 0 <= i < head.len() - 1 implies #[trigger] walk_step(edges, head, i) by {
        assert(walk_step(edges, walk, i));
    }
    assert forall|i: int| 0 <= i < tail.len() - 1 implies #[trigger] walk_step(edges, tail, i) by {
        assert(walk_step(edges, walk, at + i));
        assert(tail[i] == walk[at + i]);
        assert(tail[i + 1] == walk[at + i + 1]);
    }
    assert(walk_between(edges, head, walk.first(), walk[at]));
    assert(walk_between(edges, tail, walk[at], walk.last()));
}

/// A node on a walk between two nodes that reach each other reaches both and
/// is reached from both.
pub proof fn lemma_walk_stays_inside(
    edges: Seq<(int, int)>,
    walk: Seq<int>,
    a: int,
    b: int,
    at: int,
)
    requires
        walk_between(edges, walk, a, b),
        reaches(edges, b, a),
        0 <= at < walk.len(),
    ensures
        mutually_reachable(edges, a, walk[at]),
        mutually_reachable(edges, b, walk[at]),
{
    lemma_walk_splits(edges, walk, at);
    lemma_reaches_transitive(edges, walk[at], b, a);
    lemma_reaches_transitive(edges, b, a, walk[at]);
}

} // verus!
