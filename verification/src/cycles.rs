//! The cycle detector: which strongly connected components of the dependency
//! graph are circular dependencies, and what holds of the ones reported.

use crate::graph::{components_view, tarjan_components, DependencyGraph, GraphView};
use crate::reach::{
    component_holds, components_disjoint, edges_in_bounds, has_cycle, is_member, is_placed,
    is_scc_decomposition, is_walk, lemma_walk_stays_inside, lemma_walks_join, mutually_reachable,
    reaches, walk_between, walk_step,
};
use vstd::prelude::*;

verus! {

/// A circular dependency: the files of one cycle, in the order in which the
/// component search lists them.
#[derive(Debug)]
pub struct CircularDependency {
    pub cycle: Vec<String>,
}

impl View for CircularDependency {
    type V = Seq<Seq<char>>;

    open spec fn view(&self) -> Seq<Seq<char>> {
        self.cycle.deep_view()
    }
}

impl Clone for CircularDependency {
    fn clone(&self) -> (copy: CircularDependency)
        ensures
            copy@ == self@,
    {
        let mut cycle: Vec<String> = Vec::new();
        let mut i: usize = 0;
        while i < self.cycle.len()
            invariant
                i <= self.cycle.len(),
                cycle.len() == i,
                forall|j: int| 0 <= j < i ==> cycle[j]@ == self.cycle[j]@,
            decreases self.cycle.len() - i,
        {
            cycle.push(self.cycle[i].clone());
            i += 1;
        }
        assert(cycle.deep_view() =~= self.cycle.deep_view());
        CircularDependency { cycle }
    }
}

/// The views of a list of circular dependencies.
pub open spec fn cycles_view(cycles: Seq<CircularDependency>) -> Seq<Seq<Seq<char>>> {
    cycles.map_values(|c: CircularDependency| c@)
}

/// Whether a component is a circular dependency: it has two nodes or more, or
/// it is one node with an edge to itself.
pub open spec fn is_cycle_component(edges: Seq<(int, int)>, component: Seq<int>) -> bool {
    component.len() >= 2 || (component.len() == 1 && edges.contains((component[0], component[0])))
}

/// The components that are circular dependencies, in the order of the
/// components.
pub open spec fn cycle_components(edges: Seq<(int, int)>, components: Seq<Seq<int>>) -> Seq<
    Seq<int>,
>
    decreases components.len(),
{
    if components.len() == 0 {
        Seq::empty()
    } else {
        let earlier = cycle_components(edges, components.drop_last());
        if is_cycle_component(edges, components.last()) {
            earlier.push(components.last())
        } else {
            earlier
        }
    }
}

/// The paths of the nodes of a component, in its order.
pub open spec fn component_paths(nodes: Seq<Seq<char>>, component: Seq<int>) -> Seq<Seq<char>> {
    component.map_values(|v: int| nodes[v])
}

/// The cycles reported for a graph, given its strongly connected components:
/// each component that is a circular dependency, as the paths of its nodes.
pub open spec fn reported_cycles(graph: GraphView, components: Seq<Seq<int>>) -> Seq<
    Seq<Seq<char>>,
> {
    cycle_components(graph.edges, components).map_values(
        |c: Seq<int>| component_paths(graph.nodes, c),
    )
}

/// Every node index of the components is a node of a graph with `nodes`
/// nodes.
pub open spec fn components_in_bounds(nodes: nat, components: Seq<Seq<int>>) -> bool {
    forall|k: int, i: int|
        is_member(components, k, i) ==> 0 <= #[trigger] components[k][i] < nodes
}

/// The paths of one component, in its order.
fn paths_of(graph: &DependencyGraph, component: &Vec<usize>) -> (cycle: Vec<String>)
    requires
        forall|i: int| 0 <= i < component.len() ==> component[i] < graph@.nodes.len(),
    ensures
        cycle.deep_view() == component_paths(
            graph@.nodes,
            component@.map_values(|v: usize| v as int),
        ),
{
    let ghost wanted = component_paths(graph@.nodes, component@.map_values(|v: usize| v as int));
    let mut cycle: Vec<String> = Vec::new();
    let mut i: usize = 0;
    while i < component.len()
        invariant
            i <= component.len(),
            forall|j: int| 0 <= j < component.len() ==> component[j] < graph@.nodes.len(),
            wanted == component_paths(graph@.nodes, component@.map_values(|v: usize| v as int)),
            cycle.len() == i,
            forall|j: int| 0 <= j < i ==> cycle[j]@ == wanted[j],
        decreases component.len() - i,
    {
        let path = graph.node_path(component[i]);
        cycle.push(path);
        i += 1;
    }
    assert(cycle.deep_view() =~= wanted);
    cycle
}

/// Picks the circular dependencies among the strongly connected components of
/// a graph: a component of two files or more, or a single file that imports
/// itself.
pub fn select_cycles(graph: &DependencyGraph, components: &Vec<Vec<usize>>) -> (cycles: Vec<
    CircularDependency,
>)
    requires
        components_in_bounds(graph@.nodes.len(), components_view(components@)),
    ensures
        cycles_view(cycles@) == reported_cycles(graph@, components_view(components@)),
{
    let ghost all = components_view(components@);
    let mut cycles: Vec<CircularDependency> = Vec::new();
    let mut k: usize = 0;
    assert(all.take(0) =~= Seq::empty());
    assert(cycles_view(cycles@) =~= reported_cycles(graph@, all.take(0)));
    while k < components.len()
        invariant
            k <= components.len(),
            all == components_view(components@),
            components_in_bounds(graph@.nodes.len(), all),
            cycles_view(cycles@) == reported_cycles(graph@, all.take(k as int)),
        decreases components.len() - k,
    {
        let component = &components[k];
        let ghost members = component@.map_values(|v: usize| v as int);
        proof {
            assert(all[k as int] == members);
            assert(all.take(k + 1).drop_last() =~= all.take(k as int));
            assert(all.take(k + 1).last() == members);
            assert forall|i: int| 0 <= i < component.len() implies component[i]
                < graph@.nodes.len() by {
                assert(is_member(all, k as int, i));
                assert(all[k as int][i] == component[i] as int);
            }
        }
        let is_cycle = if component.len() >= 2 {
            true
        } else if component.len() == 1 {
            graph.has_edge(component[0], component[0])
        } else {
            false
        };
        assert(is_cycle == is_cycle_component(graph@.edges, members));
        if is_cycle {
            let ghost before = cycles_view(cycles@);
            let cycle = paths_of(graph, component);
            let found = CircularDependency { cycle };
            cycles.push(found);
            assert(cycles_view(cycles@) =~= before.push(found@));
            assert(reported_cycles(graph@, all.take(k + 1)) =~= before.push(found@));
        }
        k += 1;
    }
    assert(all.take(components.len() as int) =~= all);
    cycles
}

/// The circular dependencies of a graph: its strongly connected components
/// of two files or more, and its files that import themselves.
pub fn find_cycles(graph: &DependencyGraph) -> (cycles: Vec<CircularDependency>)
    requires
        graph.wf(),
    ensures
        cycles_view(cycles@) == reported_cycles(
            graph@,
            tarjan_components(graph@.nodes.len(), graph@.edges),
        ),
        is_scc_decomposition(
            graph@.nodes.len(),
            graph@.edges,
            tarjan_components(graph@.nodes.len(), graph@.edges),
        ),
{
    let components = graph.components();
    select_cycles(graph, &components)
}

/// The file `from` imports the file `to`: the graph has an edge between
/// their nodes.
pub open spec fn file_imports(graph: GraphView, from: Seq<char>, to: Seq<char>) -> bool {
    exists|a: int, b: int|
        0 <= a < graph.nodes.len() && 0 <= b < graph.nodes.len() && graph.nodes[a] == from
            && graph.nodes[b] == to && #[trigger] graph.edges.contains((a, b))
}

/// The file `to` can be reached from the file `from` along imports.
pub open spec fn file_reaches(graph: GraphView, from: Seq<char>, to: Seq<char>) -> bool {
    exists|a: int, b: int|
        0 <= a < graph.nodes.len() && 0 <= b < graph.nodes.len() && graph.nodes[a] == from
            && graph.nodes[b] == to && #[trigger] reaches(graph.edges, a, b)
}

/// Every reported component is one of the components, and one that is a
/// circular dependency. Returns its place among the components.
pub proof fn lemma_cycle_is_component(
    edges: Seq<(int, int)>,
    components: Seq<Seq<int>>,
    j: int,
) -> (k: int)
    requires
        0 <= j < cycle_components(edges, components).len(),
    ensures
        0 <= k < components.len(),
        components[k] == cycle_components(edges, components)[j],
        is_cycle_component(edges, components[k]),
    decreases components.len(),
{
    let earlier = cycle_components(edges, components.drop_last());
    if is_cycle_component(edges, components.last()) && j == earlier.len() {
        components.len() - 1
    } else {
        lemma_cycle_is_component(edges, components.drop_last(), j)
    }
}

/// Every component that is a circular dependency is reported. Returns its
/// place among the reported ones.
pub proof fn lemma_component_is_cycle(
    edges: Seq<(int, int)>,
    components: Seq<Seq<int>>,
    k: int,
) -> (j: int)
    requires
        0 <= k < components.len(),
        is_cycle_component(edges, components[k]),
    ensures
        0 <= j < cycle_components(edges, components).len(),
        cycle_components(edges, components)[j] == components[k],
    decreases components.len(),
{
    let earlier = cycle_components(edges, components.drop_last());
    if k == components.len() - 1 {
        earlier.len() as int
    } else {
        lemma_component_is_cycle(edges, components.drop_last(), k)
    }
}

/// No node lies in two reported components.
pub proof fn lemma_cycles_disjoint(
    edges: Seq<(int, int)>,
    components: Seq<Seq<int>>,
    j: int,
    l: int,
    v: int,
)
    requires
        components_disjoint(components),
        0 <= j < cycle_components(edges, components).len(),
        0 <= l < cycle_components(edges, components).len(),
        cycle_components(edges, components)[j].contains(v),
        cycle_components(edges, components)[l].contains(v),
    ensures
        j == l,
    decreases components.len(),
{
    let shorter = components.drop_last();
    let earlier = cycle_components(edges, shorter);
    assert(components_disjoint(shorter)) by {
        assert forall|k: int, i: int, m: int, n: int|
            #![trigger shorter[k][i], shorter[m][n]]
            is_member(shorter, k, i) && is_member(shorter, m, n) && shorter[k][i]
                == shorter[m][n] implies k == m && i == n by {
            assert(components[k][i] == components[m][n]);
        }
    }
    if j < earlier.len() && l < earlier.len() {
        lemma_cycles_disjoint(edges, shorter, j, l, v);
    } else if j != l {
        // One of the two is the last component, the other an earlier one.
        let other = if j < l {
            j
        } else {
            l
        };
        let k = lemma_cycle_is_component(edges, shorter, other);
        let last = components.len() - 1;
        let i = choose|i: int| 0 <= i < components[k].len() && components[k][i] == v;
        let n = choose|n: int| 0 <= n < components[last].len() && components[last][n] == v;
        assert(is_member(components, k, i) && is_member(components, last, n));
        assert(components[k][i] == components[last][n]);
    }
}

/// A walk between two different nodes has a step that arrives at its end
/// from another node. Returns the position at which it first arrives.
proof fn lemma_first_arrival(edges: Seq<(int, int)>, walk: Seq<int>, a: int, b: int) -> (at: int)
    requires
        walk_between(edges, walk, a, b),
        a != b,
    ensures
        1 <= at < walk.len(),
        walk[at] == b,
        walk[at - 1] != b,
        edges.contains((walk[at - 1], b)),
    decreases walk.len(),
{
    let last = walk.len() - 1;
    assert(walk_step(edges, walk, last - 1));
    if walk[last - 1] != b {
        last
    } else {
        let shorter = walk.drop_last();
        assert forall|i: int| 0 <= i < shorter.len() - 1 implies #[trigger] walk_step(
            edges,
            shorter,
            i,
        ) by {
            assert(walk_step(edges, walk, i));
        }
        lemma_first_arrival(edges, shorter, a, b)
    }
}

/// Of every reported cycle: each file reaches the file listed after it, the
/// last one the first, along imports. In a cycle of one or two files, each
/// file imports the next directly. In a longer cycle the files are listed in
/// the order of the component search, which need not follow the imports.
pub proof fn lemma_cycle_validity(
    graph: GraphView,
    components: Seq<Seq<int>>,
    j: int,
    i: int,
)
    requires
        edges_in_bounds(graph.nodes.len(), graph.edges),
        is_scc_decomposition(graph.nodes.len(), graph.edges, components),
        0 <= j < reported_cycles(graph, components).len(),
        0 <= i < reported_cycles(graph, components)[j].len(),
    ensures
        ({
            let cycle = reported_cycles(graph, components)[j];
            let next = cycle[(i + 1) % (cycle.len() as int)];
            &&& file_reaches(graph, cycle[i], next)
            &&& cycle.len() <= 2 ==> file_imports(graph, cycle[i], next)
        }),
{
    let edges = graph.edges;
    let k = lemma_cycle_is_component(edges, components, j);
    let members = components[k];
    let n = members.len() as int;
    let next = (i + 1) % n;
    let a = members[i];
    let b = members[next];
    assert(is_member(components, k, i) && is_member(components, k, next));
    assert(mutually_reachable(edges, components[k][i], components[k][next]));
    assert(reaches(edges, a, b));
    if n == 1 {
        assert(edges.contains((a, b)));
    } else if n == 2 {
        assert(next == 1 - i) by {
            if i == 0 {
                assert(1int % 2 == 1);
            } else {
                assert(2int % 2 == 0);
            }
        }
        assert(a != b) by {
            if a == b {
                assert(components[k][i] == components[k][next]);
            }
        }
        let walk = choose|walk: Seq<int>| walk_between(edges, walk, a, b);
        let at = lemma_first_arrival(edges, walk, a, b);
        let before = walk[at - 1];
        lemma_walk_stays_inside(edges, walk, a, b, at - 1);
        // The node before the arrival is a node of the graph, so it has a
        // component; it reaches `a` and back, so that component is this one.
        let e = edges.index_of((before, b));
        assert(edges[e] == (before, b));
        assert(0 <= before < graph.nodes.len());
        assert(is_placed(components, before));
        let l = choose|l: int| component_holds(components, l, before);
        let m = choose|m: int| 0 <= m < components[l].len() && components[l][m] == before;
        assert(is_member(components, l, m));
        assert(mutually_reachable(edges, components[k][i], components[l][m]));
        assert(l == k);
        assert(before == a) by {
            if m == next {
                assert(components[k][next] == b);
            } else {
                assert(m == i);
            }
        }
        assert(edges.contains((a, b)));
    }
}

/// A reported cycle names at least one file and no file twice.
pub proof fn lemma_cycle_files_distinct(graph: GraphView, components: Seq<Seq<int>>, j: int)
    requires
        graph.nodes.no_duplicates(),
        is_scc_decomposition(graph.nodes.len(), graph.edges, components),
        0 <= j < reported_cycles(graph, components).len(),
    ensures
        reported_cycles(graph, components)[j].len() >= 1,
        reported_cycles(graph, components)[j].no_duplicates(),
{
    let k = lemma_cycle_is_component(graph.edges, components, j);
    let members = components[k];
    let cycle = reported_cycles(graph, components)[j];
    assert forall|a: int, b: int| 0 <= a < cycle.len() && 0 <= b < cycle.len() && a != b implies cycle[a]
        != cycle[b] by {
        assert(is_member(components, k, a) && is_member(components, k, b));
        assert(0 <= components[k][a] < graph.nodes.len());
        assert(0 <= components[k][b] < graph.nodes.len());
        if components[k][a] == components[k][b] {
            assert(a == b);
        }
        assert(cycle[a] == graph.nodes[members[a]]);
        assert(cycle[b] == graph.nodes[members[b]]);
    }
}

/// Two different files that reach each other along imports are reported
/// together, in one cycle and in no other.
pub proof fn lemma_cycle_reported_once(
    graph: GraphView,
    components: Seq<Seq<int>>,
    a: int,
    b: int,
) -> (j: int)
    requires
        is_scc_decomposition(graph.nodes.len(), graph.edges, components),
        0 <= a < graph.nodes.len(),
        0 <= b < graph.nodes.len(),
        a != b,
        mutually_reachable(graph.edges, a, b),
    ensures
        0 <= j < cycle_components(graph.edges, components).len(),
        cycle_components(graph.edges, components)[j].contains(a),
        cycle_components(graph.edges, components)[j].contains(b),
        forall|l: int|
            0 <= l < cycle_components(graph.edges, components).len() && l != j ==> {
                &&& !(#[trigger] cycle_components(graph.edges, components)[l]).contains(a)
                &&& !cycle_components(graph.edges, components)[l].contains(b)
            },
{
    let edges = graph.edges;
    assert(is_placed(components, a));
    assert(is_placed(components, b));
    let k = choose|k: int| component_holds(components, k, a);
    let l = choose|l: int| component_holds(components, l, b);
    let i = choose|i: int| 0 <= i < components[k].len() && components[k][i] == a;
    let m = choose|m: int| 0 <= m < components[l].len() && components[l][m] == b;
    assert(is_member(components, k, i) && is_member(components, l, m));
    assert(mutually_reachable(edges, components[k][i], components[l][m]));
    assert(k == l);
    assert(i != m);
    let j = lemma_component_is_cycle(edges, components, k);
    assert forall|other: int|
        0 <= other < cycle_components(edges, components).len() && other != j implies {
        &&& !(#[trigger] cycle_components(edges, components)[other]).contains(a)
        &&& !cycle_components(edges, components)[other].contains(b)
    } by {
        if cycle_components(edges, components)[other].contains(a) {
            lemma_cycles_disjoint(edges, components, j, other, a);
        }
        if cycle_components(edges, components)[other].contains(b) {
            lemma_cycles_disjoint(edges, components, j, other, b);
        }
    }
    j
}

/// Two different files that import each other, directly or through other
/// files, stand together in one reported cycle, and in no other.
pub proof fn lemma_files_reported_once(
    graph: GraphView,
    components: Seq<Seq<int>>,
    a: int,
    b: int,
) -> (j: int)
    requires
        graph.nodes.no_duplicates(),
        is_scc_decomposition(graph.nodes.len(), graph.edges, components),
        0 <= a < graph.nodes.len(),
        0 <= b < graph.nodes.len(),
        a != b,
        mutually_reachable(graph.edges, a, b),
    ensures
        0 <= j < reported_cycles(graph, components).len(),
        reported_cycles(graph, components)[j].contains(graph.nodes[a]),
        reported_cycles(graph, components)[j].contains(graph.nodes[b]),
        forall|l: int|
            0 <= l < reported_cycles(graph, components).len() && l != j ==> {
                &&& !(#[trigger] reported_cycles(graph, components)[l]).contains(graph.nodes[a])
                &&& !reported_cycles(graph, components)[l].contains(graph.nodes[b])
            },
{
    let j = lemma_cycle_reported_once(graph, components, a, b);
    let found = cycle_components(graph.edges, components);
    let reported = reported_cycles(graph, components);
    let at = choose|i: int| 0 <= i < found[j].len() && found[j][i] == a;
    assert(reported[j][at] == graph.nodes[a]);
    let bt = choose|i: int| 0 <= i < found[j].len() && found[j][i] == b;
    assert(reported[j][bt] == graph.nodes[b]);
    assert forall|l: int| 0 <= l < reported.len() && l != j implies {
        &&& !(#[trigger] reported[l]).contains(graph.nodes[a])
        &&& !reported[l].contains(graph.nodes[b])
    } by {
        let k = lemma_cycle_is_component(graph.edges, components, l);
        assert forall|i: int| 0 <= i < reported[l].len() implies reported[l][i] != graph.nodes[a]
            && reported[l][i] != graph.nodes[b] by {
            let v = found[l][i];
            assert(is_member(components, k, i));
            assert(0 <= components[k][i] < graph.nodes.len());
            assert(reported[l][i] == graph.nodes[v]);
            if graph.nodes[v] == graph.nodes[a] {
                assert(v == a);
                assert(found[l].contains(a));
            }
            if graph.nodes[v] == graph.nodes[b] {
                assert(v == b);
                assert(found[l].contains(b));
            }
        }
    }
    j
}

/// A graph without a cycle has no circular dependency to report.
pub proof fn lemma_acyclic_reports_nothing(graph: GraphView, components: Seq<Seq<int>>)
    requires
        is_scc_decomposition(graph.nodes.len(), graph.edges, components),
        !has_cycle(graph.edges),
    ensures
        reported_cycles(graph, components).len() == 0,
{
    let edges = graph.edges;
    if cycle_components(edges, components).len() > 0 {
        let k = lemma_cycle_is_component(edges, components, 0);
        let members = components[k];
        if members.len() == 1 {
            let a = members[0];
            let walk = seq![a, a];
            assert forall|i: int| 0 <= i < walk.len() - 1 implies #[trigger] walk_step(
                edges,
                walk,
                i,
            ) by {
                assert(walk[0] == a && walk[1] == a);
            }
            assert(is_walk(edges, walk) && walk.len() >= 2 && walk.first() == walk.last());
        } else {
            let a = members[0];
            let b = members[1];
            assert(is_member(components, k, 0) && is_member(components, k, 1));
            assert(mutually_reachable(edges, components[k][0], components[k][1]));
            assert(a != b) by {
                if a == b {
                    assert(components[k][0] == components[k][1]);
                }
            }
            let out = choose|walk: Seq<int>| walk_between(edges, walk, a, b);
            let back = choose|walk: Seq<int>| walk_between(edges, walk, b, a);
            lemma_walks_join(edges, out, back, a, b, a);
            let round = out + back.drop_first();
            assert(out.len() >= 2);
            assert(is_walk(edges, round) && round.len() >= 2 && round.first() == round.last());
        }
        assert(false);
    }
}

} // verus!
