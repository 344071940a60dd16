//! The walk over a project as mathematics: the state of a walk, what each
//! step makes of it, and what holds of every state that a walk reaches.

use crate::graph::{lemma_with_node, with_node, GraphView, GRAPH_CAPACITY};
use crate::model::{import_record_of, ImportInfoView, ResolvedImportView};
use crate::paths::{is_excluded_path, is_supported_path};
use crate::reach::edges_in_bounds;
use crate::resolver::{governing_config, with_key};
use crate::scanner::RawImportView;
use vstd::prelude::*;

verus! {

/// The mathematical value of an analyzer: the state of a walk.
pub struct AnalyzerView {
    /// The project root.
    pub root: Seq<char>,
    /// The files that were scanned, in the order of their scan.
    pub visited: Seq<Seq<char>>,
    /// The import log, in the order of discovery.
    pub imports: Seq<ImportInfoView>,
    /// The dependency graph.
    pub graph: GraphView,
    /// The files that wait for their scan, first in, first out.
    pub queue: Seq<Seq<char>>,
    /// The configurations for which a resolver is cached.
    pub cache_keys: Seq<Option<Seq<char>>>,
}

/// The state before anything was walked.
pub open spec fn initial_state(root: Seq<char>) -> AnalyzerView {
    AnalyzerView {
        root,
        visited: Seq::empty(),
        imports: Seq::empty(),
        graph: GraphView { nodes: Seq::empty(), edges: Seq::empty() },
        queue: Seq::empty(),
        cache_keys: Seq::empty(),
    }
}

/// Whether a log entry adds an edge to the graph: its target resolved to a
/// source file outside the dependency directories.
pub open spec fn is_followed(record: ImportInfoView) -> bool {
    match record.resolved_to {
        Some(path) => !is_excluded_path(path) && is_supported_path(path),
        None => false,
    }
}

/// The state after one import of the file at node `source` was recorded: the
/// entry is logged; where it is followed, its target is a node, the graph
/// has an edge from `source` to it, and the target waits for its scan.
pub open spec fn record_one(state: AnalyzerView, source: int, record: ImportInfoView) -> AnalyzerView {
    if is_followed(record) {
        let target = record.resolved_to->0;
        let nodes = with_node(state.graph.nodes, target);
        AnalyzerView {
            imports: state.imports.push(record),
            graph: GraphView {
                nodes,
                edges: state.graph.edges.push((source, nodes.index_of(target))),
            },
            queue: state.queue.push(target),
            ..state
        }
    } else {
        AnalyzerView { imports: state.imports.push(record), ..state }
    }
}

/// The state after the imports of `file`, which is node `source`, were
/// recorded one after the other.
pub open spec fn record_all(
    state: AnalyzerView,
    source: int,
    file: Seq<char>,
    imports: Seq<ResolvedImportView>,
) -> AnalyzerView
    decreases imports.len(),
{
    if imports.len() == 0 {
        state
    } else {
        record_one(
            record_all(state, source, file, imports.drop_last()),
            source,
            import_record_of(file, imports.last()),
        )
    }
}

/// The state after `file` was marked as scanned and made a node.
pub open spec fn begin_visit(state: AnalyzerView, file: Seq<char>) -> AnalyzerView {
    AnalyzerView {
        visited: state.visited.push(file),
        graph: GraphView { nodes: with_node(state.graph.nodes, file), edges: state.graph.edges },
        ..state
    }
}

/// The state after a visit of `file` with the given imports. A file that was
/// scanned before is not scanned again: the state stays as it is.
pub open spec fn visit_result(
    state: AnalyzerView,
    file: Seq<char>,
    imports: Seq<ResolvedImportView>,
) -> AnalyzerView {
    if state.visited.contains(file) {
        state
    } else {
        let begun = begin_visit(state, file);
        record_all(begun, begun.graph.nodes.index_of(file), file, imports)
    }
}

/// Edge `e` of the graph is the edge of log entry `i`: the entry was found in
/// the file that the edge leaves, and its target resolved to the file that
/// the edge enters.
pub open spec fn is_edge_of(state: AnalyzerView, e: int, i: int) -> bool {
    &&& 0 <= e < state.graph.edges.len()
    &&& 0 <= i < state.imports.len()
    &&& state.imports[i].from == state.graph.nodes[state.graph.edges[e].0]
    &&& state.imports[i].resolved_to == Some(state.graph.nodes[state.graph.edges[e].1])
}

/// Some log entry accounts for edge `e`.
pub open spec fn edge_is_logged(state: AnalyzerView, e: int) -> bool {
    exists|i: int| is_edge_of(state, e, i)
}

/// Some edge stands for log entry `i`.
pub open spec fn import_has_edge(state: AnalyzerView, i: int) -> bool {
    exists|e: int| is_edge_of(state, e, i)
}

/// What holds of the state at every step of a walk.
pub open spec fn state_invariant(state: AnalyzerView) -> bool {
    // No file is scanned twice.
    &&& state.visited.no_duplicates()
    // No file has two nodes.
    &&& state.graph.nodes.no_duplicates()
    // No edge dangles.
    &&& edges_in_bounds(state.graph.nodes.len(), state.graph.edges)
    // Every scanned file is a node.
    &&& forall|i: int|
        0 <= i < state.visited.len() ==> state.graph.nodes.contains(#[trigger] state.visited[i])
    // Every edge leaves a scanned file and enters a source file outside the
    // dependency directories.
    &&& forall|e: int|
        0 <= e < state.graph.edges.len() ==> {
            let edge = #[trigger] state.graph.edges[e];
            &&& state.visited.contains(state.graph.nodes[edge.0])
            &&& !is_excluded_path(state.graph.nodes[edge.1])
            &&& is_supported_path(state.graph.nodes[edge.1])
        }
    // Every log entry was found in a scanned file.
    &&& forall|i: int|
        0 <= i < state.imports.len() ==> state.visited.contains((#[trigger] state.imports[i]).from)
    // Every edge is accounted for by a log entry, and every log entry that
    // is followed has its edge.
    &&& forall|e: int| 0 <= e < state.graph.edges.len() ==> #[trigger] edge_is_logged(state, e)
    &&& forall|i: int|
        0 <= i < state.imports.len() && is_followed(state.imports[i])
            ==> #[trigger] import_has_edge(state, i)
    // Every node is a file that was scanned or the target of an import.
    &&& forall|n: int|
        0 <= n < state.graph.nodes.len() ==> state.visited.contains(
            #[trigger] state.graph.nodes[n],
        ) || is_import_target(state, state.graph.nodes[n])
    // No configuration has two resolvers.
    &&& state.cache_keys.no_duplicates()
}

/// The invariant speaks of the scanned files, the graph, the log and the
/// cache keys alone: it holds of any state that agrees on them with a state
/// of which it holds.
pub proof fn lemma_invariant_of_parts(state: AnalyzerView, other: AnalyzerView)
    requires
        state_invariant(state),
        other.visited == state.visited,
        other.graph == state.graph,
        other.imports == state.imports,
        other.cache_keys.no_duplicates(),
    ensures
        state_invariant(other),
{
    assert forall|e: int| 0 <= e < other.graph.edges.len() implies #[trigger] edge_is_logged(
        other,
        e,
    ) by {
        assert(edge_is_logged(state, e));
        let i = choose|i: int| is_edge_of(state, e, i);
        assert(is_edge_of(other, e, i));
    }
    assert forall|i: int|
        0 <= i < other.imports.len() && is_followed(other.imports[i]) implies #[trigger] import_has_edge(
        other,
        i,
    ) by {
        assert(import_has_edge(state, i));
        let e = choose|e: int| is_edge_of(state, e, i);
        assert(is_edge_of(other, e, i));
    }
    assert forall|n: int| 0 <= n < other.graph.nodes.len() implies other.visited.contains(
        #[trigger] other.graph.nodes[n],
    ) || is_import_target(other, other.graph.nodes[n]) by {
        let path = state.graph.nodes[n];
        if is_import_target(state, path) {
            let e = choose|e: int|
                0 <= e < state.graph.edges.len() && state.graph.nodes[(
                #[trigger] state.graph.edges[e]).1] == path;
            assert(other.graph.edges[e] == state.graph.edges[e]);
        }
    }
}

/// Recording one import keeps the invariant.
pub proof fn lemma_record_one(state: AnalyzerView, source: int, record: ImportInfoView)
    requires
        state_invariant(state),
        0 <= source < state.graph.nodes.len(),
        state.visited.contains(state.graph.nodes[source]),
        record.from == state.graph.nodes[source],
    ensures
        state_invariant(record_one(state, source, record)),
        record_one(state, source, record).visited == state.visited,
        record_one(state, source, record).root == state.root,
        record_one(state, source, record).cache_keys == state.cache_keys,
        record_one(state, source, record).graph.nodes.len() >= state.graph.nodes.len(),
        record_one(state, source, record).graph.nodes[source] == state.graph.nodes[source],
{
    let after = record_one(state, source, record);
    assert forall|i: int| 0 <= i < after.imports.len() implies after.visited.contains(
        (#[trigger] after.imports[i]).from,
    ) by {
        if i < state.imports.len() {
            assert(after.imports[i] == state.imports[i]);
        }
    }
    let last = state.imports.len() as int;
    assert(after.imports[last] == record);
    if is_followed(record) {
        lemma_with_node(state.graph.nodes, record.resolved_to->0);
    }
    lemma_record_one_goes_on(state, source, record);
    assert forall|n: int| 0 <= n < after.graph.nodes.len() implies after.visited.contains(
        #[trigger] after.graph.nodes[n],
    ) || is_import_target(after, after.graph.nodes[n]) by {
        if n < state.graph.nodes.len() {
            let path = state.graph.nodes[n];
            assert(after.graph.nodes[n] == path);
            if is_import_target(state, path) {
                lemma_target_stays(state, after, path);
            }
        } else {
            assert(after.queue[state.queue.len() as int] == after.graph.nodes[n]);
        }
    }
    assert forall|e: int, i: int| is_edge_of(state, e, i) implies is_edge_of(after, e, i) by {
        let edge = state.graph.edges[e];
        assert(after.graph.edges[e] == edge);
        assert(after.imports[i] == state.imports[i]);
        assert(after.graph.nodes[edge.0] == state.graph.nodes[edge.0]);
        assert(after.graph.nodes[edge.1] == state.graph.nodes[edge.1]);
    }
    assert forall|e: int| 0 <= e < after.graph.edges.len() implies #[trigger] edge_is_logged(
        after,
        e,
    ) by {
        if e < state.graph.edges.len() {
            assert(edge_is_logged(state, e));
            let i = choose|i: int| is_edge_of(state, e, i);
            assert(is_edge_of(after, e, i));
        } else {
            assert(is_edge_of(after, e, last));
        }
    }
    assert forall|i: int|
        0 <= i < after.imports.len() && is_followed(after.imports[i]) implies #[trigger] import_has_edge(
        after,
        i,
    ) by {
        if i < last {
            assert(after.imports[i] == state.imports[i]);
            assert(import_has_edge(state, i));
            let e = choose|e: int| is_edge_of(state, e, i);
            assert(is_edge_of(after, e, i));
        } else {
            assert(is_edge_of(after, state.graph.edges.len() as int, last));
        }
    }
    if is_followed(record) {
        let target = record.resolved_to->0;
        let nodes = after.graph.nodes;
        assert forall|i: int| 0 <= i < after.visited.len() implies nodes.contains(
            #[trigger] after.visited[i],
        ) by {
            let at = state.graph.nodes.index_of(state.visited[i]);
            assert(state.graph.nodes.contains(state.visited[i]));
            assert(nodes[at] == state.visited[i]);
        }
        assert forall|e: int| 0 <= e < after.graph.edges.len() implies {
            let edge = #[trigger] after.graph.edges[e];
            &&& 0 <= edge.0 < nodes.len()
            &&& 0 <= edge.1 < nodes.len()
            &&& after.visited.contains(nodes[edge.0])
            &&& !is_excluded_path(nodes[edge.1])
            &&& is_supported_path(nodes[edge.1])
        } by {
            if e < state.graph.edges.len() {
                let edge = state.graph.edges[e];
                assert(after.graph.edges[e] == edge);
                assert(nodes[edge.0] == state.graph.nodes[edge.0]);
                assert(nodes[edge.1] == state.graph.nodes[edge.1]);
            }
        }
    }
}

/// Recording the imports of a scanned file keeps the invariant.
pub proof fn lemma_record_all(
    state: AnalyzerView,
    source: int,
    file: Seq<char>,
    imports: Seq<ResolvedImportView>,
)
    requires
        state_invariant(state),
        0 <= source < state.graph.nodes.len(),
        state.graph.nodes[source] == file,
        state.visited.contains(file),
    ensures
        state_invariant(record_all(state, source, file, imports)),
        record_all(state, source, file, imports).visited == state.visited,
        record_all(state, source, file, imports).root == state.root,
        record_all(state, source, file, imports).cache_keys == state.cache_keys,
        record_all(state, source, file, imports).graph.nodes.len() >= state.graph.nodes.len(),
        record_all(state, source, file, imports).graph.nodes[source] == file,
    decreases imports.len(),
{
    if imports.len() > 0 {
        lemma_record_all(state, source, file, imports.drop_last());
        lemma_record_one(
            record_all(state, source, file, imports.drop_last()),
            source,
            import_record_of(file, imports.last()),
        );
    }
}

/// Marking a file as scanned keeps the invariant.
pub proof fn lemma_begin_visit(state: AnalyzerView, file: Seq<char>)
    requires
        state_invariant(state),
        !state.visited.contains(file),
    ensures
        state_invariant(begin_visit(state, file)),
        begin_visit(state, file).visited.contains(file),
        0 <= begin_visit(state, file).graph.nodes.index_of(file) < begin_visit(
            state,
            file,
        ).graph.nodes.len(),
        begin_visit(state, file).graph.nodes[begin_visit(state, file).graph.nodes.index_of(file)]
            == file,
{
    let after = begin_visit(state, file);
    lemma_with_node(state.graph.nodes, file);
    let nodes = after.graph.nodes;
    assert(after.visited[state.visited.len() as int] == file);
    assert forall|i: int, j: int|
        0 <= i < after.visited.len() && 0 <= j < after.visited.len() && i != j implies after.visited[i]
        != after.visited[j] by {
        if i < state.visited.len() && j < state.visited.len() {
        } else if i < state.visited.len() {
            assert(state.visited.contains(after.visited[i]));
        } else {
            assert(state.visited.contains(after.visited[j]));
        }
    }
    assert forall|i: int| 0 <= i < after.visited.len() implies nodes.contains(
        #[trigger] after.visited[i],
    ) by {
        if i < state.visited.len() {
            let at = state.graph.nodes.index_of(state.visited[i]);
            assert(state.graph.nodes.contains(state.visited[i]));
            assert(nodes[at] == state.visited[i]);
        }
    }
    assert forall|e: int| 0 <= e < after.graph.edges.len() implies {
        let edge = #[trigger] after.graph.edges[e];
        &&& after.visited.contains(nodes[edge.0])
        &&& !is_excluded_path(nodes[edge.1])
        &&& is_supported_path(nodes[edge.1])
    } by {
        let edge = state.graph.edges[e];
        assert(nodes[edge.0] == state.graph.nodes[edge.0]);
        assert(nodes[edge.1] == state.graph.nodes[edge.1]);
        let at = state.visited.index_of(state.graph.nodes[edge.0]);
        assert(after.visited[at] == state.graph.nodes[edge.0]);
    }
    assert forall|i: int| 0 <= i < after.imports.len() implies after.visited.contains(
        (#[trigger] after.imports[i]).from,
    ) by {
        let at = state.visited.index_of(state.imports[i].from);
        assert(after.visited[at] == state.imports[i].from);
    }
    assert forall|e: int, i: int| is_edge_of(state, e, i) implies is_edge_of(after, e, i) by {
        let edge = state.graph.edges[e];
        assert(nodes[edge.0] == state.graph.nodes[edge.0]);
        assert(nodes[edge.1] == state.graph.nodes[edge.1]);
    }
    assert forall|e: int| 0 <= e < after.graph.edges.len() implies #[trigger] edge_is_logged(
        after,
        e,
    ) by {
        assert(edge_is_logged(state, e));
        let i = choose|i: int| is_edge_of(state, e, i);
        assert(is_edge_of(after, e, i));
    }
    assert forall|i: int|
        0 <= i < after.imports.len() && is_followed(after.imports[i]) implies #[trigger] import_has_edge(
        after,
        i,
    ) by {
        assert(import_has_edge(state, i));
        let e = choose|e: int| is_edge_of(state, e, i);
        assert(is_edge_of(after, e, i));
    }
    assert(goes_on(state, after));
    assert forall|n: int| 0 <= n < nodes.len() implies after.visited.contains(
        #[trigger] nodes[n],
    ) || is_import_target(after, nodes[n]) by {
        if n < state.graph.nodes.len() {
            let path = state.graph.nodes[n];
            assert(nodes[n] == path);
            if state.visited.contains(path) {
                let at = state.visited.index_of(path);
                assert(after.visited[at] == path);
            } else {
                lemma_target_stays(state, after, path);
            }
        }
    }
}

/// A visit keeps the invariant.
pub proof fn lemma_visit_keeps_invariant(
    state: AnalyzerView,
    file: Seq<char>,
    imports: Seq<ResolvedImportView>,
)
    requires
        state_invariant(state),
    ensures
        state_invariant(visit_result(state, file, imports)),
        visit_result(state, file, imports).cache_keys == state.cache_keys,
        visit_result(state, file, imports).root == state.root,
{
    if !state.visited.contains(file) {
        lemma_begin_visit(state, file);
        let begun = begin_visit(state, file);
        lemma_record_all(begun, begun.graph.nodes.index_of(file), file, imports);
    }
}

/// The state before anything was walked meets the invariant.
pub proof fn lemma_initial_state(root: Seq<char>)
    ensures
        state_invariant(initial_state(root)),
{
}

/// A file is scanned at most once: once a file was visited, another visit of
/// it changes nothing, whatever imports it is given, and the list of scanned
/// files never holds a file twice.
pub proof fn lemma_scanned_once(
    state: AnalyzerView,
    file: Seq<char>,
    first: Seq<ResolvedImportView>,
    second: Seq<ResolvedImportView>,
)
    requires
        state_invariant(state),
    ensures
        visit_result(state, file, first).visited.contains(file),
        visit_result(visit_result(state, file, first), file, second) == visit_result(
            state,
            file,
            first,
        ),
        visit_result(state, file, first).visited.no_duplicates(),
{
    lemma_visit_keeps_invariant(state, file, first);
    if !state.visited.contains(file) {
        lemma_begin_visit(state, file);
        let begun = begin_visit(state, file);
        lemma_record_all(begun, begun.graph.nodes.index_of(file), file, first);
    }
}

/// No edge dangles: after a visit, both ends of every edge are nodes of the
/// graph.
pub proof fn lemma_no_dangling_edges(
    state: AnalyzerView,
    file: Seq<char>,
    imports: Seq<ResolvedImportView>,
    e: int,
)
    requires
        state_invariant(state),
        0 <= e < visit_result(state, file, imports).graph.edges.len(),
    ensures
        ({
            let graph = visit_result(state, file, imports).graph;
            0 <= graph.edges[e].0 < graph.nodes.len() && 0 <= graph.edges[e].1 < graph.nodes.len()
        }),
{
    lemma_visit_keeps_invariant(state, file, imports);
}

/// An import that resolves into a dependency directory is logged without a
/// resolved path and leaves the graph and the queue as they are.
pub proof fn lemma_excluded_import(
    state: AnalyzerView,
    source: int,
    file: Seq<char>,
    import: ResolvedImportView,
)
    requires
        import.resolved matches Some(path) && is_excluded_path(path),
    ensures
        import_record_of(file, import).resolved_to is None,
        record_one(state, source, import_record_of(file, import)) == (AnalyzerView {
            imports: state.imports.push(import_record_of(file, import)),
            ..state
        }),
{
}

/// No edge enters a dependency directory: after a visit, the target of every
/// edge is a source file outside the dependency directories, and its source
/// is a file that was scanned.
pub proof fn lemma_edges_stay_outside(
    state: AnalyzerView,
    file: Seq<char>,
    imports: Seq<ResolvedImportView>,
    e: int,
)
    requires
        state_invariant(state),
        0 <= e < visit_result(state, file, imports).graph.edges.len(),
    ensures
        ({
            let after = visit_result(state, file, imports);
            let edge = after.graph.edges[e];
            &&& !is_excluded_path(after.graph.nodes[edge.1])
            &&& is_supported_path(after.graph.nodes[edge.1])
            &&& after.visited.contains(after.graph.nodes[edge.0])
        }),
{
    lemma_visit_keeps_invariant(state, file, imports);
}

/// The keys of the resolver cache after the imports `found` of `file` were
/// resolved: unchanged where nothing was found; else with the configuration
/// that governs `file` among them.
pub open spec fn keys_after(
    before: AnalyzerView,
    file: Seq<char>,
    found: Seq<RawImportView>,
    present: Seq<bool>,
) -> Seq<Option<Seq<char>>> {
    if found.len() == 0 {
        before.cache_keys
    } else {
        with_key(before.cache_keys, governing_config(file, before.root, present))
    }
}

/// The entries that are source files, in their order.
pub open spec fn supported_entries(entries: Seq<Seq<char>>) -> Seq<Seq<char>>
    decreases entries.len(),
{
    if entries.len() == 0 {
        Seq::empty()
    } else if is_supported_path(entries.last()) {
        supported_entries(entries.drop_last()).push(entries.last())
    } else {
        supported_entries(entries.drop_last())
    }
}

/// The entries that are no source files, in their order.
pub open spec fn unsupported_entries(entries: Seq<Seq<char>>) -> Seq<Seq<char>>
    decreases entries.len(),
{
    if entries.len() == 0 {
        Seq::empty()
    } else if is_supported_path(entries.last()) {
        unsupported_entries(entries.drop_last())
    } else {
        unsupported_entries(entries.drop_last()).push(entries.last())
    }
}

/// The queue without the scanned files at its front.
pub open spec fn pending(queue: Seq<Seq<char>>, visited: Seq<Seq<char>>) -> Seq<Seq<char>>
    decreases queue.len(),
{
    if queue.len() == 0 {
        queue
    } else if visited.contains(queue[0]) {
        pending(queue.drop_first(), visited)
    } else {
        queue
    }
}

/// Whether a graph has room for a file with `imports` imports: for a node
/// and an edge for each import, and a node for the file itself.
pub open spec fn room_for(graph: GraphView, imports: nat) -> bool {
    &&& graph.nodes.len() + imports + 1 <= GRAPH_CAPACITY
    &&& graph.edges.len() + imports <= GRAPH_CAPACITY
}

/// A visit of a file that was not scanned yet adds exactly that file to the
/// scanned files, so every such visit makes them one more.
pub proof fn lemma_visit_marks_file(
    state: AnalyzerView,
    file: Seq<char>,
    imports: Seq<ResolvedImportView>,
)
    requires
        state_invariant(state),
        !state.visited.contains(file),
    ensures
        visit_result(state, file, imports).visited == state.visited.push(file),
{
    lemma_begin_visit(state, file);
    let begun = begin_visit(state, file);
    lemma_record_all(begun, begun.graph.nodes.index_of(file), file, imports);
}

/// Taking the next file never makes the queue longer, and a file that is
/// taken leaves it shorter.
pub proof fn lemma_pending_shrinks(queue: Seq<Seq<char>>, visited: Seq<Seq<char>>)
    ensures
        pending(queue, visited).len() <= queue.len(),
        pending(queue, visited).len() > 0 ==> !visited.contains(pending(queue, visited)[0]),
    decreases queue.len(),
{
    if queue.len() > 0 && visited.contains(queue[0]) {
        lemma_pending_shrinks(queue.drop_first(), visited);
    }
}

/// `path` is accounted for: it was scanned, or it waits for its scan, or it
/// is none of the files that can be read.
pub open spec fn is_accounted(
    state: AnalyzerView,
    readable: Set<Seq<char>>,
    path: Seq<char>,
) -> bool {
    state.visited.contains(path) || state.queue.contains(path) || !readable.contains(path)
}

/// The walk is settled: every node of the graph is accounted for.
pub open spec fn is_settled(state: AnalyzerView, readable: Set<Seq<char>>) -> bool {
    forall|n: int|
        0 <= n < state.graph.nodes.len() ==> is_accounted(
            state,
            readable,
            #[trigger] state.graph.nodes[n],
        )
}

/// The walk is settled but for the file `taken`, which was taken from the
/// queue and waits for its visit.
pub open spec fn is_settled_but(
    state: AnalyzerView,
    readable: Set<Seq<char>>,
    taken: Seq<char>,
) -> bool {
    forall|n: int|
        0 <= n < state.graph.nodes.len() ==> (#[trigger] state.graph.nodes[n]) == taken
            || is_accounted(state, readable, state.graph.nodes[n])
}

/// How many of the files `known` were not scanned yet.
pub open spec fn unscanned(known: Seq<Seq<char>>, visited: Seq<Seq<char>>) -> nat
    decreases known.len(),
{
    if known.len() == 0 {
        0
    } else if visited.contains(known.last()) {
        unscanned(known.drop_last(), visited)
    } else {
        unscanned(known.drop_last(), visited) + 1
    }
}

/// Scanning a file leaves no more files to scan than there were, and fewer
/// where the file is a known one that was not scanned before.
pub proof fn lemma_unscanned_shrinks(
    known: Seq<Seq<char>>,
    visited: Seq<Seq<char>>,
    file: Seq<char>,
)
    ensures
        unscanned(known, visited.push(file)) <= unscanned(known, visited),
        known.contains(file) && !visited.contains(file) ==> unscanned(known, visited.push(file))
            < unscanned(known, visited),
    decreases known.len(),
{
    let after = visited.push(file);
    assert(after[visited.len() as int] == file);
    if known.len() > 0 {
        lemma_unscanned_shrinks(known.drop_last(), visited, file);
        if visited.contains(known.last()) {
            let at = visited.index_of(known.last());
            assert(after[at] == known.last());
        }
        if known.contains(file) && !visited.contains(file) {
            if known.last() == file {
                assert(after.contains(known.last()));
            } else {
                let at = known.index_of(file);
                assert(known.drop_last()[at] == file);
            }
        }
    }
}

/// What the queue drops at its front was scanned.
pub proof fn lemma_pending_keeps(queue: Seq<Seq<char>>, visited: Seq<Seq<char>>, path: Seq<char>)
    requires
        queue.contains(path),
    ensures
        visited.contains(path) || pending(queue, visited).contains(path),
    decreases queue.len(),
{
    if visited.contains(queue[0]) {
        if queue[0] != path {
            let at = queue.index_of(path);
            assert(queue.drop_first()[at - 1] == path);
            lemma_pending_keeps(queue.drop_first(), visited, path);
        }
    }
}

/// Taking the next file from the queue of a settled walk leaves the walk
/// settled but for that file.
pub proof fn lemma_taking_keeps_settled(
    state: AnalyzerView,
    after: AnalyzerView,
    readable: Set<Seq<char>>,
)
    requires
        is_settled(state, readable),
        after.visited == state.visited,
        after.graph == state.graph,
        pending(state.queue, state.visited).len() > 0,
        after.queue == pending(state.queue, state.visited).drop_first(),
    ensures
        is_settled_but(after, readable, pending(state.queue, state.visited)[0]),
{
    let waiting = pending(state.queue, state.visited);
    assert forall|n: int| 0 <= n < after.graph.nodes.len() implies (#[trigger] after.graph.nodes[n])
        == waiting[0] || is_accounted(after, readable, after.graph.nodes[n]) by {
        let path = state.graph.nodes[n];
        assert(is_accounted(state, readable, path));
        if state.queue.contains(path) && !state.visited.contains(path) {
            lemma_pending_keeps(state.queue, state.visited, path);
            let at = waiting.index_of(path);
            if at > 0 {
                assert(waiting.drop_first()[at - 1] == path);
            }
        }
    }
}

/// Recording one import keeps a walk settled: a file that becomes a node
/// is put into the queue.
pub proof fn lemma_record_one_settled(
    state: AnalyzerView,
    source: int,
    record: ImportInfoView,
    readable: Set<Seq<char>>,
)
    requires
        state.graph.nodes.no_duplicates(),
        is_settled(state, readable),
    ensures
        is_settled(record_one(state, source, record), readable),
{
    let after = record_one(state, source, record);
    if is_followed(record) {
        let target = record.resolved_to->0;
        lemma_with_node(state.graph.nodes, target);
        assert(after.queue[state.queue.len() as int] == target);
        assert forall|n: int| 0 <= n < after.graph.nodes.len() implies is_accounted(
            after,
            readable,
            #[trigger] after.graph.nodes[n],
        ) by {
            if n < state.graph.nodes.len() {
                let path = state.graph.nodes[n];
                assert(is_accounted(state, readable, path));
                if state.queue.contains(path) {
                    let at = state.queue.index_of(path);
                    assert(after.queue[at] == path);
                }
            }
        }
    }
}

/// Recording the imports of a file keeps a walk settled.
pub proof fn lemma_record_all_settled(
    state: AnalyzerView,
    source: int,
    file: Seq<char>,
    imports: Seq<ResolvedImportView>,
    readable: Set<Seq<char>>,
)
    requires
        state_invariant(state),
        0 <= source < state.graph.nodes.len(),
        state.graph.nodes[source] == file,
        state.visited.contains(file),
        is_settled(state, readable),
    ensures
        is_settled(record_all(state, source, file, imports), readable),
    decreases imports.len(),
{
    if imports.len() > 0 {
        lemma_record_all_settled(state, source, file, imports.drop_last(), readable);
        lemma_record_all(state, source, file, imports.drop_last());
        lemma_record_one_settled(
            record_all(state, source, file, imports.drop_last()),
            source,
            import_record_of(file, imports.last()),
            readable,
        );
    }
}

/// The visit of the file that was taken from the queue settles the walk
/// again: the file is scanned, and every file that its imports make a node
/// waits for its scan.
pub proof fn lemma_visit_settles(
    state: AnalyzerView,
    file: Seq<char>,
    imports: Seq<ResolvedImportView>,
    readable: Set<Seq<char>>,
)
    requires
        state_invariant(state),
        !state.visited.contains(file),
        is_settled_but(state, readable, file),
    ensures
        is_settled(visit_result(state, file, imports), readable),
{
    lemma_begin_visit(state, file);
    lemma_with_node(state.graph.nodes, file);
    let begun = begin_visit(state, file);
    assert(begun.visited[state.visited.len() as int] == file);
    assert forall|n: int| 0 <= n < begun.graph.nodes.len() implies is_accounted(
        begun,
        readable,
        #[trigger] begun.graph.nodes[n],
    ) by {
        if n < state.graph.nodes.len() {
            let path = state.graph.nodes[n];
            if path != file {
                assert(is_accounted(state, readable, path));
                if state.visited.contains(path) {
                    let at = state.visited.index_of(path);
                    assert(begun.visited[at] == path);
                }
            }
        }
    }
    lemma_record_all_settled(begun, begun.graph.nodes.index_of(file), file, imports, readable);
}

/// Recording imports drops nothing from the queue.
pub proof fn lemma_record_all_keeps_queue(
    state: AnalyzerView,
    source: int,
    file: Seq<char>,
    imports: Seq<ResolvedImportView>,
    path: Seq<char>,
)
    requires
        state.queue.contains(path),
    ensures
        record_all(state, source, file, imports).queue.contains(path),
        record_all(state, source, file, imports).visited == state.visited,
    decreases imports.len(),
{
    if imports.len() > 0 {
        lemma_record_all_keeps_queue(state, source, file, imports.drop_last(), path);
        let earlier = record_all(state, source, file, imports.drop_last());
        let after = record_one(earlier, source, import_record_of(file, imports.last()));
        let at = earlier.queue.index_of(path);
        assert(after.queue[at] == path);
    } else {
        assert(record_all(state, source, file, imports) == state);
    }
}

/// A path that is accounted for stays so over a visit, and the visited file
/// is accounted for after it.
pub proof fn lemma_visit_keeps_accounted(
    state: AnalyzerView,
    file: Seq<char>,
    imports: Seq<ResolvedImportView>,
    readable: Set<Seq<char>>,
    path: Seq<char>,
)
    requires
        state_invariant(state),
        !state.visited.contains(file),
        path == file || is_accounted(state, readable, path),
    ensures
        is_accounted(visit_result(state, file, imports), readable, path),
{
    lemma_visit_marks_file(state, file, imports);
    let after = visit_result(state, file, imports);
    assert(after.visited[state.visited.len() as int] == file);
    if path != file {
        if state.visited.contains(path) {
            let at = state.visited.index_of(path);
            assert(after.visited[at] == path);
        } else if state.queue.contains(path) {
            let begun = begin_visit(state, file);
            lemma_record_all_keeps_queue(
                begun,
                begun.graph.nodes.index_of(file),
                file,
                imports,
                path,
            );
        }
    }
}

/// A path that is accounted for stays so when the next file is taken from
/// the queue, unless it is that file.
pub proof fn lemma_taking_keeps_accounted(
    state: AnalyzerView,
    after: AnalyzerView,
    readable: Set<Seq<char>>,
    path: Seq<char>,
)
    requires
        is_accounted(state, readable, path),
        after.visited == state.visited,
        pending(state.queue, state.visited).len() > 0,
        after.queue == pending(state.queue, state.visited).drop_first(),
    ensures
        path == pending(state.queue, state.visited)[0] || is_accounted(after, readable, path),
{
    let waiting = pending(state.queue, state.visited);
    if state.queue.contains(path) && !state.visited.contains(path) {
        lemma_pending_keeps(state.queue, state.visited, path);
        let at = waiting.index_of(path);
        if at > 0 {
            assert(waiting.drop_first()[at - 1] == path);
        }
    }
}

/// Some import leads to `path`: the graph has an edge that enters its node.
pub open spec fn is_import_target(state: AnalyzerView, path: Seq<char>) -> bool {
    exists|e: int|
        0 <= e < state.graph.edges.len() && state.graph.nodes[(#[trigger] state.graph.edges[e]).1]
            == path
}

/// `after` goes on from `state`: the nodes, the edges and the queue of
/// `state` stand at the front of those of `after`, and an import leads to
/// every file that `after` has put into the queue.
pub open spec fn goes_on(state: AnalyzerView, after: AnalyzerView) -> bool {
    &&& after.graph.nodes.len() >= state.graph.nodes.len()
    &&& forall|n: int|
        0 <= n < state.graph.nodes.len() ==> (#[trigger] after.graph.nodes[n])
            == state.graph.nodes[n]
    &&& after.graph.edges.len() >= state.graph.edges.len()
    &&& forall|e: int|
        0 <= e < state.graph.edges.len() ==> (#[trigger] after.graph.edges[e])
            == state.graph.edges[e]
    &&& after.queue.len() >= state.queue.len()
    &&& forall|i: int| 0 <= i < state.queue.len() ==> (#[trigger] after.queue[i]) == state.queue[i]
    &&& forall|i: int|
        state.queue.len() <= i < after.queue.len() ==> is_import_target(
            after,
            #[trigger] after.queue[i],
        )
}

/// What an import leads to in a state, it leads to in every state that goes
/// on from it.
pub proof fn lemma_target_stays(state: AnalyzerView, after: AnalyzerView, path: Seq<char>)
    requires
        edges_in_bounds(state.graph.nodes.len(), state.graph.edges),
        goes_on(state, after),
        is_import_target(state, path),
    ensures
        is_import_target(after, path),
{
    let e = choose|e: int|
        0 <= e < state.graph.edges.len() && state.graph.nodes[(#[trigger] state.graph.edges[e]).1]
            == path;
    let edge = state.graph.edges[e];
    assert(after.graph.edges[e] == edge);
    assert(after.graph.nodes[edge.1] == state.graph.nodes[edge.1]);
}

/// Going on is transitive.
pub proof fn lemma_goes_on_further(first: AnalyzerView, second: AnalyzerView, third: AnalyzerView)
    requires
        edges_in_bounds(second.graph.nodes.len(), second.graph.edges),
        goes_on(first, second),
        goes_on(second, third),
    ensures
        goes_on(first, third),
{
    assert forall|n: int| 0 <= n < first.graph.nodes.len() implies (#[trigger] third.graph.nodes[n])
        == first.graph.nodes[n] by {
        assert(second.graph.nodes[n] == first.graph.nodes[n]);
    }
    assert forall|e: int| 0 <= e < first.graph.edges.len() implies (#[trigger] third.graph.edges[e])
        == first.graph.edges[e] by {
        assert(second.graph.edges[e] == first.graph.edges[e]);
    }
    assert forall|i: int| 0 <= i < first.queue.len() implies (#[trigger] third.queue[i])
        == first.queue[i] by {
        assert(second.queue[i] == first.queue[i]);
    }
    assert forall|i: int| first.queue.len() <= i < third.queue.len() implies is_import_target(
        third,
        #[trigger] third.queue[i],
    ) by {
        if i < second.queue.len() {
            assert(third.queue[i] == second.queue[i]);
            assert(is_import_target(second, second.queue[i]));
            lemma_target_stays(second, third, second.queue[i]);
        }
    }
}

/// Recording one import goes on from the state before it.
pub proof fn lemma_record_one_goes_on(state: AnalyzerView, source: int, record: ImportInfoView)
    requires
        state.graph.nodes.no_duplicates(),
    ensures
        goes_on(state, record_one(state, source, record)),
{
    let after = record_one(state, source, record);
    if is_followed(record) {
        let target = record.resolved_to->0;
        lemma_with_node(state.graph.nodes, target);
        let last = state.graph.edges.len() as int;
        assert(after.graph.edges[last].1 == after.graph.nodes.index_of(target));
        assert(after.graph.nodes[after.graph.edges[last].1] == target);
        assert(is_import_target(after, target));
        assert(after.queue[state.queue.len() as int] == target);
    }
}

/// Recording the imports of a file goes on from the state before it.
pub proof fn lemma_record_all_goes_on(
    state: AnalyzerView,
    source: int,
    file: Seq<char>,
    imports: Seq<ResolvedImportView>,
)
    requires
        state_invariant(state),
        0 <= source < state.graph.nodes.len(),
        state.graph.nodes[source] == file,
        state.visited.contains(file),
    ensures
        goes_on(state, record_all(state, source, file, imports)),
    decreases imports.len(),
{
    if imports.len() > 0 {
        let earlier = record_all(state, source, file, imports.drop_last());
        lemma_record_all_goes_on(state, source, file, imports.drop_last());
        lemma_record_all(state, source, file, imports.drop_last());
        lemma_record_one_goes_on(earlier, source, import_record_of(file, imports.last()));
        lemma_goes_on_further(
            state,
            earlier,
            record_one(earlier, source, import_record_of(file, imports.last())),
        );
    }
}

/// A visit goes on from the state before it.
pub proof fn lemma_visit_goes_on(
    state: AnalyzerView,
    file: Seq<char>,
    imports: Seq<ResolvedImportView>,
)
    requires
        state_invariant(state),
    ensures
        goes_on(state, visit_result(state, file, imports)),
{
    if !state.visited.contains(file) {
        lemma_begin_visit(state, file);
        lemma_with_node(state.graph.nodes, file);
        let begun = begin_visit(state, file);
        assert(goes_on(state, begun));
        lemma_record_all_goes_on(begun, begun.graph.nodes.index_of(file), file, imports);
        lemma_goes_on_further(state, begun, visit_result(state, file, imports));
    }
}

/// Asking for the resolver of a configuration leaves no configuration with
/// two resolvers.
pub proof fn lemma_with_key(keys: Seq<Option<Seq<char>>>, key: Option<Seq<char>>)
    requires
        keys.no_duplicates(),
    ensures
        with_key(keys, key).no_duplicates(),
{
    let after = with_key(keys, key);
    if !keys.contains(key) {
        assert forall|i: int, j: int|
            0 <= i < after.len() && 0 <= j < after.len() && i != j implies after[i] != after[j] by {
            if i < keys.len() && j < keys.len() {
            } else if i < keys.len() {
                assert(keys.contains(after[i]));
            } else {
                assert(keys.contains(after[j]));
            }
        }
    }
}

/// The files that wait behind the scanned files at the front of a queue are
/// files of the queue.
pub proof fn lemma_pending_is_of_queue(queue: Seq<Seq<char>>, visited: Seq<Seq<char>>, i: int)
    requires
        0 <= i < pending(queue, visited).len(),
    ensures
        queue.contains(pending(queue, visited)[i]),
    decreases queue.len(),
{
    if queue.len() > 0 && visited.contains(queue[0]) {
        lemma_pending_is_of_queue(queue.drop_first(), visited, i);
        let path = pending(queue, visited)[i];
        let at = queue.drop_first().index_of(path);
        assert(queue[at + 1] == path);
    } else {
        assert(queue[i] == pending(queue, visited)[i]);
    }
}

/// The log entries of the imports found in `file`, in their order.
pub open spec fn records_of(file: Seq<char>, imports: Seq<ResolvedImportView>) -> Seq<
    ImportInfoView,
> {
    imports.map_values(|import: ResolvedImportView| import_record_of(file, import))
}

/// Recording the imports of a file appends one log entry for each, in their
/// order.
pub proof fn lemma_record_all_logs(
    state: AnalyzerView,
    source: int,
    file: Seq<char>,
    imports: Seq<ResolvedImportView>,
)
    ensures
        record_all(state, source, file, imports).imports == state.imports + records_of(
            file,
            imports,
        ),
    decreases imports.len(),
{
    if imports.len() > 0 {
        lemma_record_all_logs(state, source, file, imports.drop_last());
        assert(records_of(file, imports) =~= records_of(file, imports.drop_last()).push(
            import_record_of(file, imports.last()),
        ));
        assert(record_all(state, source, file, imports).imports =~= state.imports + records_of(
            file,
            imports,
        ));
    } else {
        assert(state.imports + records_of(file, imports) =~= state.imports);
    }
}

/// The visit of a file that was not scanned before appends to the log one
/// entry for each import found in the file, in their order, and nothing
/// else.
pub proof fn lemma_visit_logs(state: AnalyzerView, file: Seq<char>, imports: Seq<ResolvedImportView>)
    requires
        !state.visited.contains(file),
    ensures
        visit_result(state, file, imports).imports == state.imports + records_of(file, imports),
{
    let begun = begin_visit(state, file);
    lemma_record_all_logs(begun, begun.graph.nodes.index_of(file), file, imports);
}

/// The visit of a file that was not scanned before makes it the last of the
/// scanned files, whatever the state before it.
pub proof fn lemma_visit_pushes(state: AnalyzerView, file: Seq<char>, imports: Seq<ResolvedImportView>)
    requires
        !state.visited.contains(file),
    ensures
        visit_result(state, file, imports).visited == state.visited.push(file),
{
    let begun = begin_visit(state, file);
    lemma_record_all_visited(begun, begun.graph.nodes.index_of(file), file, imports);
}

/// Recording imports scans nothing.
pub proof fn lemma_record_all_visited(
    state: AnalyzerView,
    source: int,
    file: Seq<char>,
    imports: Seq<ResolvedImportView>,
)
    ensures
        record_all(state, source, file, imports).visited == state.visited,
    decreases imports.len(),
{
    if imports.len() > 0 {
        lemma_record_all_visited(state, source, file, imports.drop_last());
    }
}

} // verus!
