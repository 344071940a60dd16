//! The graph builder: a breadth-first walk over the files of a project. The
//! analyzer holds the state of the walk and decides every step; its caller
//! looks at the disk, asks the resolver, and hands in what it found.

use crate::cycles::{cycles_view, find_cycles, reported_cycles, CircularDependency};
use crate::graph::{
    lemma_index_of, lemma_with_node, tarjan_components, DependencyGraph, GRAPH_CAPACITY,
};
use crate::model::{
    import_record, imports_view, resolved_imports_view, AnalysisResult, AnalysisResultView,
    ImportInfo, ImportInfoView, ResolvedImport,
};
use crate::paths::{
    base_directory, containing_directory, is_excluded_path, is_supported_file, optional_text,
};
use crate::reach::is_scc_decomposition;
use crate::resolver::{
    config_candidates_of, governing_config, is_pick_of, ResolverCache, ResolverPick,
};
use crate::scanner::{
    all_accepted, import_patterns, is_first_rejected, raw_imports_view, scan_result,
    ImportScanner, RawImport, ScanPatternError,
};
use crate::text::position_of;
use crate::walk::{
    begin_visit, initial_state, keys_after, lemma_begin_visit, lemma_invariant_of_parts,
    lemma_record_all, lemma_visit_keeps_invariant, pending, record_all, record_one, room_for,
    state_invariant, supported_entries, unsupported_entries, visit_result, AnalyzerView,
};
use std::collections::VecDeque;
use vstd::prelude::*;

verus! {

/// The views of a list of paths.
pub open spec fn paths_view(paths: Seq<String>) -> Seq<Seq<char>> {
    paths.map_values(|p: String| p@)
}

/// What the caller saw of a file.
#[derive(Debug)]
pub enum FileState {
    /// The file does not exist.
    Missing,
    /// The file exists and could not be read.
    Unreadable,
    /// The file was read and scanned, and the resolver was asked for each
    /// import that was found in it.
    Scanned {
        /// The imports of the file in the order in which they were found,
        /// each with the answer of the resolver.
        imports: Vec<ResolvedImport>,
    },
}

/// What has to be resolved for a file: the imports found in it, and where
/// and with which resolver the caller resolves them.
#[derive(Debug)]
pub struct ImportRequest {
    /// The imports found in the file, in their order.
    pub imports: Vec<RawImport>,
    /// The directory against which the targets are resolved.
    pub directory: String,
    /// The resolver that resolves them; `None` where nothing was found.
    pub resolver: Option<ResolverPick>,
}

/// How a visit ended.
#[derive(Clone, Copy, Debug, PartialEq, Eq, Structural)]
pub enum VisitOutcome {
    /// The file was scanned before; nothing was done.
    AlreadyVisited,
    /// The file does not exist; it was skipped.
    Missing,
    /// The file could not be read; it counts as scanned and has no imports.
    Unreadable,
    /// The file counts as scanned and this many imports were logged.
    Scanned { imports: usize },
    /// The graph cannot take the nodes and edges of the file; nothing was
    /// done.
    GraphFull,
}

/// How a visit of `file` ends, given the state before it and what was seen
/// of the file.
pub open spec fn visit_outcome(
    before: AnalyzerView,
    file: Seq<char>,
    observed: FileState,
) -> VisitOutcome {
    if before.visited.contains(file) {
        VisitOutcome::AlreadyVisited
    } else {
        match observed {
            FileState::Missing => VisitOutcome::Missing,
            FileState::Unreadable => if room_for(before.graph, 0) {
                VisitOutcome::Unreadable
            } else {
                VisitOutcome::GraphFull
            },
            FileState::Scanned { imports } => if room_for(before.graph, imports.len() as nat) {
                VisitOutcome::Scanned { imports: imports.len() }
            } else {
                VisitOutcome::GraphFull
            },
        }
    }
}

/// The analyzer: the state of one walk over a project.
pub struct DependencyAnalyzer {
    scanner: ImportScanner,
    visited_files: Vec<String>,
    imports: Vec<ImportInfo>,
    graph: DependencyGraph,
    resolvers: ResolverCache,
    queue: VecDeque<String>,
}

impl View for DependencyAnalyzer {
    type V = AnalyzerView;

    closed spec fn view(&self) -> AnalyzerView {
        AnalyzerView {
            root: self.resolvers.root(),
            visited: paths_view(self.visited_files@),
            imports: imports_view(self.imports@),
            graph: self.graph@,
            queue: paths_view(self.queue@),
            cache_keys: self.resolvers.keys(),
        }
    }
}

impl DependencyAnalyzer {
    /// The parts of the analyzer are well formed.
    pub closed spec fn parts_wf(&self) -> bool {
        &&& self.graph.wf()
        &&& self.resolvers.wf()
    }

    /// The analyzer is well formed: its parts are, and its state meets the
    /// invariant of the walk.
    pub open spec fn wf(&self) -> bool {
        &&& self.parts_wf()
        &&& state_invariant(self@)
    }

    /// The patterns of the scanner.
    pub closed spec fn patterns(&self) -> Seq<Seq<char>> {
        self.scanner.patterns()
    }

    /// Whether the graph has room for a file with `imports` imports.
    pub open spec fn has_room(&self, imports: nat) -> bool {
        room_for(self@.graph, imports)
    }

    /// An analyzer for the project at `root`, with nothing walked yet. Fails
    /// where one of the scan patterns does not compile.
    pub fn new(root: &str) -> (made: Result<DependencyAnalyzer, ScanPatternError>)
        ensures
            made is Ok <==> all_accepted(import_patterns()),
            made matches Ok(analyzer) ==> analyzer.wf() && analyzer@ == initial_state(root@)
                && analyzer.patterns() == import_patterns(),
            made matches Err(e) ==> is_first_rejected(import_patterns(), e.pattern@),
    {
        match ImportScanner::new() {
            Ok(scanner) => {
                let analyzer = DependencyAnalyzer {
                    scanner,
                    visited_files: Vec::new(),
                    imports: Vec::new(),
                    graph: DependencyGraph::new(),
                    resolvers: ResolverCache::new(root),
                    queue: VecDeque::new(),
                };
                proof {
                    assert(analyzer@.visited =~= Seq::<Seq<char>>::empty());
                    assert(analyzer@.imports =~= Seq::<ImportInfoView>::empty());
                    assert(analyzer@.queue =~= Seq::<Seq<char>>::empty());
                    assert(analyzer@.graph == initial_state(root@).graph);
                }
                Ok(analyzer)
            },
            Err(e) => Err(e),
        }
    }

    /// The number of files that were scanned.
    pub fn files_processed(&self) -> (count: usize)
        ensures
            count == self@.visited.len(),
    {
        self.visited_files.len()
    }

    /// The number of entries of the import log.
    pub fn imports_found(&self) -> (count: usize)
        ensures
            count == self@.imports.len(),
    {
        self.imports.len()
    }

    /// The number of files that wait for their scan.
    pub fn queue_len(&self) -> (count: usize)
        ensures
            count == self@.queue.len(),
    {
        self.queue.len()
    }

    /// The dependency graph.
    pub fn graph(&self) -> (graph: &DependencyGraph)
        ensures
            graph@ == self@.graph,
            self.wf() ==> graph.wf(),
    {
        &self.graph
    }

    /// Whether `file` was scanned.
    pub fn is_visited(&self, file: &str) -> (visited: bool)
        ensures
            visited == self@.visited.contains(file@),
    {
        let found = position_of(&self.visited_files, file);
        proof {
            let visited = self@.visited;
            assert forall|j: int| 0 <= j < visited.len() implies visited[j]
                == self.visited_files[j]@ by {}
            match found {
                Some(i) => {
                    assert(visited[i as int] == file@);
                },
                None => {},
            }
        }
        found.is_some()
    }

    /// Whether the graph has room for a file with `imports` imports.
    pub fn check_room(&self, imports: usize) -> (room: bool)
        ensures
            room == self.has_room(imports as nat),
    {
        let nodes = self.graph.node_count();
        let edges = self.graph.edge_count();
        nodes <= GRAPH_CAPACITY && edges <= GRAPH_CAPACITY && imports < GRAPH_CAPACITY - nodes
            && imports <= GRAPH_CAPACITY - edges
    }

    /// Puts the entry files that are source files into the queue, in their
    /// order, and returns the others, which are skipped.
    pub fn enqueue_entries(&mut self, entry_files: &Vec<String>) -> (skipped: Vec<String>)
        requires
            old(self).wf(),
        ensures
            final(self).wf(),
            final(self).patterns() == old(self).patterns(),
            final(self)@ == (AnalyzerView {
                queue: old(self)@.queue + supported_entries(entry_files.deep_view()),
                ..old(self)@
            }),
            skipped.deep_view() == unsupported_entries(entry_files.deep_view()),
    {
        let ghost entries = entry_files.deep_view();
        let ghost before = self@;
        let mut skipped: Vec<String> = Vec::new();
        let mut i: usize = 0;
        assert(entries.take(0) =~= Seq::empty());
        assert(before.queue + supported_entries(entries.take(0)) =~= before.queue);
        assert(skipped.deep_view() =~= unsupported_entries(entries.take(0)));
        while i < entry_files.len()
            invariant
                i <= entry_files.len(),
                entries == entry_files.deep_view(),
                self.wf(),
                self.patterns() == old(self).patterns(),
                self@ == (AnalyzerView {
                    queue: before.queue + supported_entries(entries.take(i as int)),
                    ..before
                }),
                skipped.deep_view() == unsupported_entries(entries.take(i as int)),
            decreases entry_files.len() - i,
        {
            let entry = &entry_files[i];
            proof {
                assert(entries.take(i + 1).drop_last() =~= entries.take(i as int));
                assert(entries.take(i + 1).last() == entry@);
            }
            if is_supported_file(entry.as_str()) {
                let ghost queue = self@.queue;
                let ghost state = self@;
                self.queue.push_back(entry.clone());
                assert(self@.queue =~= queue.push(entry@));
                proof {
                    lemma_invariant_of_parts(state, self@);
                }
                assert(self@.queue =~= before.queue + supported_entries(entries.take(i + 1)));
            } else {
                let ghost so_far = skipped.deep_view();
                skipped.push(entry.clone());
                assert(skipped.deep_view() =~= so_far.push(entry@));
            }
            i += 1;
        }
        assert(entries.take(entry_files.len() as int) =~= entries);
        skipped
    }

    /// Visits `file` with the imports that were found in it and what each
    /// resolved to. The file is marked as scanned and made a node. Each
    /// import is logged; an import that resolved to a source file outside the
    /// dependency directories adds an edge to that file, which is made a node
    /// and put into the queue. A file that was scanned before is left alone.
    pub fn visit_with(&mut self, file: &str, imports: &Vec<ResolvedImport>)
        requires
            old(self).wf(),
            old(self).has_room(imports.len() as nat),
        ensures
            final(self).wf(),
            final(self)@ == visit_result(old(self)@, file@, resolved_imports_view(imports@)),
            final(self).patterns() == old(self).patterns(),
    {
        let ghost all = resolved_imports_view(imports@);
        proof {
            lemma_visit_keeps_invariant(self@, file@, all);
        }
        if self.is_visited(file) {
            return;
        }
        let ghost begun = begin_visit(self@, file@);
        let ghost visited = self@.visited;
        proof {
            lemma_begin_visit(self@, file@);
        }
        self.visited_files.push(file.to_owned());
        assert(self@.visited =~= visited.push(file@));
        let source = self.graph.ensure_node(file);
        proof {
            lemma_index_of(self@.graph.nodes, file@, source as int);
            assert(self@ == begun);
            assert(all.take(0) =~= Seq::empty());
        }
        let mut i: usize = 0;
        while i < imports.len()
            invariant
                i <= imports.len(),
                all == resolved_imports_view(imports@),
                self.parts_wf(),
                self.patterns() == old(self).patterns(),
                state_invariant(begun),
                begun.visited.contains(file@),
                0 <= source < begun.graph.nodes.len(),
                begun.graph.nodes[source as int] == file@,
                self@ == record_all(begun, source as int, file@, all.take(i as int)),
                begun.graph.nodes.len() + imports.len() <= GRAPH_CAPACITY,
                begun.graph.edges.len() + imports.len() <= GRAPH_CAPACITY,
                self@.graph.nodes.len() <= begun.graph.nodes.len() + i,
                self@.graph.edges.len() <= begun.graph.edges.len() + i,
            decreases imports.len() - i,
        {
            let ghost state = self@;
            proof {
                lemma_record_all(begun, source as int, file@, all.take(i as int));
                assert(all.take(i + 1).drop_last() =~= all.take(i as int));
                assert(all.take(i + 1).last() == imports[i as int]@);
            }
            let record = import_record(file, &imports[i]);
            match &record.resolved_to {
                Some(path) => {
                    // A path in a dependency directory is not logged, so the
                    // path of a log entry is never in one.
                    assert(!is_excluded_path(path@));
                    if is_supported_file(path.as_str()) {
                        let target = self.graph.ensure_node(path.as_str());
                        proof {
                            lemma_with_node(state.graph.nodes, path@);
                            lemma_index_of(self@.graph.nodes, path@, target as int);
                        }
                        self.graph.add_edge(source, target);
                        self.queue.push_back(path.clone());
                        assert(self@.queue =~= state.queue.push(path@));
                    }
                },
                None => {},
            }
            self.imports.push(record);
            assert(self@.imports =~= state.imports.push(record@));
            assert(self@ == record_one(state, source as int, record@));
            i += 1;
        }
        assert(all.take(imports.len() as int) =~= all);
    }

    /// The paths at which the configuration of `file` is looked for, nearest
    /// first. The caller tells `extract_imports_from_file` which of them exist.
    pub fn config_candidates(&self, file: &str) -> (candidates: Vec<String>)
        ensures
            candidates.deep_view() == config_candidates_of(file@, self@.root),
    {
        self.resolvers.config_candidates(file)
    }

    /// Scans the text of `file` and says what has to be resolved: the
    /// imports that were found, the directory against which their targets
    /// are resolved, and the resolver for the file, which is the resolver of
    /// the configuration that governs it; `configs_present` tells of each
    /// configuration candidate of the file, by position, whether it exists.
    /// No resolver is asked for where nothing was found.
    pub fn extract_imports_from_file(
        &mut self,
        file: &str,
        content: &str,
        configs_present: &Vec<bool>,
    ) -> (request: ImportRequest)
        requires
            old(self).wf(),
        ensures
            final(self).wf(),
            final(self).patterns() == old(self).patterns(),
            raw_imports_view(request.imports@) == scan_result(old(self).patterns(), content@),
            request.directory@ == containing_directory(file@),
            final(self)@ == (AnalyzerView {
                cache_keys: keys_after(
                    old(self)@,
                    file@,
                    raw_imports_view(request.imports@),
                    configs_present@,
                ),
                ..old(self)@
            }),
            request.imports.len() == 0 ==> request.resolver is None,
            request.imports.len() > 0 ==> (request.resolver matches Some(pick) && is_pick_of(
                pick,
                old(self)@.cache_keys,
                old(self)@.root,
                governing_config(file@, old(self)@.root, configs_present@),
            )),
    {
        let imports = self.scanner.scan(content);
        let directory = base_directory(file);
        if imports.len() == 0 {
            return ImportRequest { imports, directory, resolver: None };
        }
        let ghost before = self@;
        let pick = self.resolvers.get_resolver_for_file(file, configs_present);
        proof {
            lemma_invariant_of_parts(before, self@);
        }
        ImportRequest { imports, directory, resolver: Some(pick) }
    }

    /// Visits `file` with what the caller saw of it. A file that was scanned
    /// before is left alone, and so is a missing file. A file that could not
    /// be read counts as scanned and has no imports. A file that was scanned
    /// is visited with its imports; where the graph has no room for them,
    /// nothing is done.
    pub fn visit(&mut self, file: &str, observed: &FileState) -> (outcome: VisitOutcome)
        requires
            old(self).wf(),
        ensures
            final(self).wf(),
            final(self).patterns() == old(self).patterns(),
            outcome == visit_outcome(old(self)@, file@, *observed),
            match outcome {
                VisitOutcome::AlreadyVisited | VisitOutcome::Missing | VisitOutcome::GraphFull => final(self)@ == old(self)@,
                VisitOutcome::Unreadable => final(self)@ == visit_result(
                    old(self)@,
                    file@,
                    Seq::empty(),
                ),
                VisitOutcome::Scanned { .. } => observed matches FileState::Scanned { imports }
                    && final(self)@ == visit_result(
                    old(self)@,
                    file@,
                    resolved_imports_view(imports@),
                ),
            },
    {
        if self.is_visited(file) {
            return VisitOutcome::AlreadyVisited;
        }
        match observed {
            FileState::Missing => VisitOutcome::Missing,
            FileState::Unreadable => {
                if !self.check_room(0) {
                    return VisitOutcome::GraphFull;
                }
                let nothing: Vec<ResolvedImport> = Vec::new();
                assert(resolved_imports_view(nothing@) =~= Seq::empty());
                self.visit_with(file, &nothing);
                VisitOutcome::Unreadable
            },
            FileState::Scanned { imports } => {
                if !self.check_room(imports.len()) {
                    return VisitOutcome::GraphFull;
                }
                self.visit_with(file, imports);
                VisitOutcome::Scanned { imports: imports.len() }
            },
        }
    }

    /// The circular dependencies of the graph as it stands: its strongly
    /// connected components of two files or more, and its files that import
    /// themselves, each as the paths of its files.
    pub fn find_circular_dependencies(&self) -> (cycles: Vec<CircularDependency>)
        requires
            self.wf(),
        ensures
            cycles_view(cycles@) == reported_cycles(
                self@.graph,
                tarjan_components(self@.graph.nodes.len(), self@.graph.edges),
            ),
            is_scc_decomposition(
                self@.graph.nodes.len(),
                self@.graph.edges,
                tarjan_components(self@.graph.nodes.len(), self@.graph.edges),
            ),
    {
        find_cycles(&self.graph)
    }

    /// What the run hands to the reports: the number of scanned files, the
    /// number of logged imports, the given cycles and the import log.
    pub fn get_analysis_result(&self, circular_deps: &Vec<CircularDependency>) -> (result:
        AnalysisResult)
        ensures
            result@ == (AnalysisResultView {
                files_processed: self@.visited.len(),
                imports_found: self@.imports.len(),
                circular_dependencies: cycles_view(circular_deps@),
                imports: self@.imports,
            }),
    {
        let mut cycles: Vec<CircularDependency> = Vec::new();
        let mut i: usize = 0;
        while i < circular_deps.len()
            invariant
                i <= circular_deps.len(),
                cycles.len() == i,
                forall|j: int| 0 <= j < i ==> cycles[j]@ == circular_deps[j]@,
            decreases circular_deps.len() - i,
        {
            cycles.push(circular_deps[i].clone());
            i += 1;
        }
        let mut imports: Vec<ImportInfo> = Vec::new();
        let mut k: usize = 0;
        while k < self.imports.len()
            invariant
                k <= self.imports.len(),
                imports.len() == k,
                forall|j: int| 0 <= j < k ==> imports[j]@ == self.imports[j]@,
            decreases self.imports.len() - k,
        {
            imports.push(self.imports[k].clone());
            k += 1;
        }
        assert(cycles_view(cycles@) =~= cycles_view(circular_deps@));
        assert(imports_view(imports@) =~= self@.imports);
        AnalysisResult {
            files_processed: self.visited_files.len(),
            imports_found: self.imports.len(),
            circular_dependencies: cycles,
            imports,
        }
    }

    /// Takes the next file to scan from the queue: the first that was not
    /// scanned yet. The files before it are dropped. `None` where no file
    /// waits.
    pub fn next_file(&mut self) -> (next: Option<String>)
        requires
            old(self).wf(),
        ensures
            final(self).wf(),
            final(self).patterns() == old(self).patterns(),
            ({
                let waiting = pending(old(self)@.queue, old(self)@.visited);
                &&& optional_text(next) == if waiting.len() == 0 {
                    None
                } else {
                    Some(waiting[0])
                }
                &&& final(self)@ == (AnalyzerView {
                    queue: if waiting.len() == 0 {
                        waiting
                    } else {
                        waiting.drop_first()
                    },
                    ..old(self)@
                })
            }),
            next matches Some(file) ==> !final(self)@.visited.contains(file@),
    {
        let ghost before = self@;
        loop
            invariant
                self.wf(),
                self.patterns() == old(self).patterns(),
                before == old(self)@,
                self@ == (AnalyzerView { queue: self@.queue, ..before }),
                pending(self@.queue, before.visited) == pending(before.queue, before.visited),
            decreases self@.queue.len(),
        {
            let ghost queue = self@.queue;
            let ghost state = self@;
            match self.queue.pop_front() {
                None => {
                    assert(queue =~= Seq::<Seq<char>>::empty());
                    assert(self@.queue =~= queue);
                    assert(pending(queue, before.visited) =~= queue);
                    return None;
                },
                Some(file) => {
                    assert(queue[0] == file@);
                    assert(self@.queue =~= queue.drop_first());
                    proof {
                        lemma_invariant_of_parts(state, self@);
                    }
                    if !self.is_visited(file.as_str()) {
                        assert(pending(queue, before.visited) =~= queue);
                        return Some(file);
                    }
                    assert(pending(queue, before.visited) == pending(
                        queue.drop_first(),
                        before.visited,
                    ));
                },
            }
        }
    }
}

} // verus!
