use oxc_resolver::{ResolveOptions, Resolver, TsconfigOptions, TsconfigReferences};
use rustyring::analyzer::{DependencyAnalyzer, FileState, ImportRequest, VisitOutcome};
use rustyring::model::{import_record, ImportInfo, ResolvedImport};
use rustyring::report::{exit_status, OutputFormat};
use rustyring::resolver::{ProjectReferences, ResolverSettings};
use std::io::Write;
use std::path::{Path, PathBuf};

fn write_file(path: &Path, content: &str) {
    let mut file = tempfile::NamedTempFile::new_in(path.parent().unwrap()).unwrap();
    file.write_all(content.as_bytes()).unwrap();
    file.persist(path).unwrap();
}

fn name(path: &Path) -> String {
    path.to_string_lossy().into_owned()
}

/// A project on disk, with the text of each file kept for the walk, and the
/// resolvers that the walk has made.
struct Project {
    _dir: tempfile::TempDir,
    root: PathBuf,
    files: Vec<(String, String)>,
    resolvers: Vec<Resolver>,
}

fn project(files: &[(&str, &str)]) -> Project {
    let dir = tempfile::tempdir().unwrap();
    let root = dir.path().canonicalize().unwrap();
    let mut kept = Vec::new();
    for (file, content) in files {
        let path = root.join(file);
        write_file(&path, content);
        kept.push((name(&path), content.to_string()));
    }
    Project { _dir: dir, root, files: kept, resolvers: Vec::new() }
}

fn make_resolver(settings: &ResolverSettings) -> Resolver {
    let references = match settings.references {
        ProjectReferences::Disabled => TsconfigReferences::Disabled,
        ProjectReferences::Auto => TsconfigReferences::Auto,
    };
    Resolver::new(ResolveOptions {
        extensions: settings.extensions.clone(),
        condition_names: settings.condition_names.clone(),
        main_fields: settings.main_fields.clone(),
        roots: settings.roots.iter().map(PathBuf::from).collect(),
        tsconfig: settings.config_file.as_ref().map(|config_file| TsconfigOptions {
            config_file: PathBuf::from(config_file),
            references,
        }),
        ..ResolveOptions::default()
    })
}

/// Asks the resolver on disk for each import of the request.
fn resolve_all(resolvers: &mut Vec<Resolver>, request: ImportRequest) -> Vec<ResolvedImport> {
    let Some(pick) = request.resolver else {
        return Vec::new();
    };
    if let Some(settings) = &pick.settings {
        assert_eq!(pick.index, resolvers.len());
        resolvers.push(make_resolver(settings));
    }
    let resolver = &resolvers[pick.index];
    request
        .imports
        .into_iter()
        .map(|import| ResolvedImport {
            resolved: resolver
                .resolve(&request.directory, &import.target)
                .ok()
                .map(|r| name(r.path())),
            target: import.target,
            line_number: import.line_number,
        })
        .collect()
}

/// Scans the text of a file and resolves its imports on disk.
fn scanned(
    resolvers: &mut Vec<Resolver>,
    analyzer: &mut DependencyAnalyzer,
    file: &str,
    content: &str,
) -> FileState {
    let configs_present: Vec<bool> =
        analyzer.config_candidates(file).iter().map(|c| Path::new(c).exists()).collect();
    let request = analyzer.extract_imports_from_file(file, content, &configs_present);
    FileState::Scanned { imports: resolve_all(resolvers, request) }
}

fn observe(project: &mut Project, analyzer: &mut DependencyAnalyzer, file: &str) -> FileState {
    match project.files.iter().find(|(path, _)| path == file) {
        Some((_, content)) => scanned(&mut project.resolvers, analyzer, file, content),
        None => FileState::Missing,
    }
}

/// Walks the project from the entries and returns the outcome of each visit.
fn walk(
    project: &mut Project,
    analyzer: &mut DependencyAnalyzer,
    entries: &[&str],
) -> Vec<(String, VisitOutcome)> {
    let entries: Vec<String> = entries.iter().map(|e| name(&project.root.join(e))).collect();
    analyzer.enqueue_entries(&entries);
    let mut visits = Vec::new();
    while let Some(file) = analyzer.next_file() {
        let observed = observe(project, analyzer, &file);
        let outcome = analyzer.visit(&file, &observed);
        visits.push((file, outcome));
    }
    visits
}

fn analyzer_at(root: &str) -> DependencyAnalyzer {
    DependencyAnalyzer::new(root).ok().unwrap()
}

fn found(target: &str, line_number: usize, resolved: Option<&str>) -> ResolvedImport {
    ResolvedImport {
        target: target.to_string(),
        line_number,
        resolved: resolved.map(String::from),
    }
}

fn log_of(analyzer: &DependencyAnalyzer) -> Vec<ImportInfo> {
    analyzer.get_analysis_result(&Vec::new()).imports
}

#[test]
fn two_files_that_import_each_other() {
    let mut project = project(&[
        ("a.ts", "import { b } from './b';\n"),
        ("b.ts", "const a = require('./a');\n"),
    ]);
    let a = name(&project.root.join("a.ts"));
    let b = name(&project.root.join("b.ts"));
    let mut analyzer = analyzer_at(&name(&project.root));
    let visits = walk(&mut project, &mut analyzer, &["a.ts"]);
    assert_eq!(visits.len(), 2);
    assert!(visits.iter().all(|(_, o)| *o == VisitOutcome::Scanned { imports: 1 }));

    let cycles = analyzer.find_circular_dependencies();
    assert_eq!(cycles.len(), 1);
    let mut files = cycles[0].cycle.clone();
    files.sort();
    assert_eq!(files, vec![a.clone(), b.clone()]);
    assert_eq!(exit_status(OutputFormat::Text, cycles.len()), 1);
    assert_eq!(exit_status(OutputFormat::Json, cycles.len()), 0);
    assert_eq!(exit_status(OutputFormat::Dot, cycles.len()), 0);

    let result = analyzer.get_analysis_result(&cycles);
    assert_eq!(result.files_processed, 2);
    assert_eq!(result.imports_found, 2);
    assert_eq!(result.imports[0].from, a);
    assert_eq!(result.imports[0].to, "./b");
    assert_eq!(result.imports[0].resolved_to, Some(b.clone()));
    assert_eq!(result.imports[0].line_number, 1);
    assert_eq!(result.imports[1].from, b);
    assert_eq!(result.imports[1].to, "./a");
    assert_eq!(result.imports[1].resolved_to, Some(a));
}

#[test]
fn an_import_into_a_dependency_directory() {
    let dir = tempfile::tempdir().unwrap();
    let root = dir.path().canonicalize().unwrap();
    let packages = tempfile::Builder::new().prefix("node_modules").tempdir_in(&root).unwrap();
    write_file(&packages.path().join("index.js"), "module.exports = 1;\n");
    let package = format!("./{}", packages.path().file_name().unwrap().to_string_lossy());
    let content = format!("import dep from '{}';\n", package);
    write_file(&root.join("a.ts"), &content);
    let a = name(&root.join("a.ts"));

    let mut analyzer = analyzer_at(&name(&root));
    analyzer.enqueue_entries(&vec![a.clone()]);
    let file = analyzer.next_file().unwrap();
    let observed = scanned(&mut Vec::new(), &mut analyzer, &file, &content);
    assert_eq!(analyzer.visit(&file, &observed), VisitOutcome::Scanned { imports: 1 });
    assert_eq!(analyzer.next_file(), None);

    assert_eq!(analyzer.graph().node_count(), 1);
    assert_eq!(analyzer.graph().edge_count(), 0);
    assert!(analyzer.find_circular_dependencies().is_empty());
    let log = log_of(&analyzer);
    assert_eq!(log.len(), 1);
    assert_eq!(log[0].from, a);
    assert_eq!(log[0].to, package);
    assert_eq!(log[0].resolved_to, None);
    assert_eq!(log[0].line_number, 1);
}

#[test]
fn an_entry_file_that_is_missing() {
    let mut project = project(&[]);
    let mut analyzer = analyzer_at(&name(&project.root));
    let visits = walk(&mut project, &mut analyzer, &["gone.ts"]);
    assert_eq!(visits, vec![(name(&project.root.join("gone.ts")), VisitOutcome::Missing)]);
    assert_eq!(analyzer.files_processed(), 0);
    assert_eq!(analyzer.graph().node_count(), 0);
    let cycles = analyzer.find_circular_dependencies();
    assert!(cycles.is_empty());
    assert_eq!(exit_status(OutputFormat::Text, cycles.len()), 0);
}

#[test]
fn an_import_of_a_missing_file() {
    let mut project = project(&[("a.ts", "import gone from './gone';\n")]);
    let mut analyzer = analyzer_at(&name(&project.root));
    let visits = walk(&mut project, &mut analyzer, &["a.ts"]);
    assert_eq!(visits.len(), 1);
    let log = log_of(&analyzer);
    assert_eq!(log.len(), 1);
    assert_eq!(log[0].resolved_to, None);
    assert_eq!(analyzer.graph().edge_count(), 0);
    assert!(analyzer.find_circular_dependencies().is_empty());
}

#[test]
fn two_entries_that_share_an_import() {
    let mut project = project(&[
        ("a.ts", "import { c } from './common';\n"),
        ("b.ts", "import { c } from './common';\n"),
        ("common.ts", "export const c = 1;\n"),
    ]);
    let common = name(&project.root.join("common.ts"));
    let mut analyzer = analyzer_at(&name(&project.root));
    let visits = walk(&mut project, &mut analyzer, &["a.ts", "b.ts"]);
    let scans = visits.iter().filter(|(file, _)| *file == common).count();
    assert_eq!(scans, 1);
    assert_eq!(visits.len(), 3);
    assert_eq!(analyzer.files_processed(), 3);
    let log = log_of(&analyzer);
    assert_eq!(log.len(), 2);
    assert_eq!(log[0].from, name(&project.root.join("a.ts")));
    assert_eq!(log[1].from, name(&project.root.join("b.ts")));
    assert_eq!(log[0].resolved_to, Some(common.clone()));
    assert_eq!(log[1].resolved_to, Some(common));
    assert_eq!(analyzer.graph().node_count(), 3);
    assert_eq!(analyzer.graph().edge_count(), 2);
    assert!(analyzer.find_circular_dependencies().is_empty());
}

#[test]
fn a_cycle_of_three_files_on_disk() {
    let mut project = project(&[
        ("a.ts", "import './b';\n"),
        ("b.ts", "export * from './c';\n"),
        ("c.ts", "const a = import('./a');\n"),
        ("d.ts", "import './a';\n"),
    ]);
    let mut analyzer = analyzer_at(&name(&project.root));
    walk(&mut project, &mut analyzer, &["d.ts"]);
    let cycles = analyzer.find_circular_dependencies();
    assert_eq!(cycles.len(), 1);
    let mut files = cycles[0].cycle.clone();
    files.sort();
    let expected: Vec<String> =
        ["a.ts", "b.ts", "c.ts"].iter().map(|f| name(&project.root.join(f))).collect();
    assert_eq!(files, expected);
}

#[test]
fn a_chain_of_files_has_no_cycle() {
    let mut project = project(&[
        ("a.ts", "import './b';\n"),
        ("b.ts", "import './c';\n"),
        ("c.ts", "export const c = 1;\n"),
    ]);
    let mut analyzer = analyzer_at(&name(&project.root));
    let visits = walk(&mut project, &mut analyzer, &["a.ts"]);
    assert_eq!(visits.len(), 3);
    assert_eq!(analyzer.graph().edge_count(), 2);
    assert!(analyzer.find_circular_dependencies().is_empty());
}

#[test]
fn files_below_a_configuration_use_its_path_mappings() {
    let mut project = project(&[
        ("tsconfig.json", "{ \"compilerOptions\": { \"baseUrl\": \".\", \"paths\": { \"@/*\": [\"src/*\"] } } }"),
        ("a.ts", "import { b } from '@/b';\n"),
    ]);
    let src = tempfile::Builder::new().prefix("src").tempdir_in(&project.root).unwrap();
    let mapped = src.path().file_name().unwrap().to_string_lossy().into_owned();
    write_file(
        &project.root.join("tsconfig.json"),
        &format!(
            "{{ \"compilerOptions\": {{ \"baseUrl\": \".\", \"paths\": {{ \"@/*\": [\"{}/*\"] }} }} }}",
            mapped
        ),
    );
    write_file(&src.path().join("b.ts"), "export const b = 1;\n");
    let a = name(&project.root.join("a.ts"));
    let mut analyzer = analyzer_at(&name(&project.root));
    assert_eq!(
        analyzer.config_candidates(&a),
        vec![name(&project.root.join("tsconfig.json"))]
    );
    let observed = scanned(
        &mut project.resolvers,
        &mut analyzer,
        &a,
        "import { b } from '@/b';\n",
    );
    assert_eq!(analyzer.visit(&a, &observed), VisitOutcome::Scanned { imports: 1 });
    assert_eq!(log_of(&analyzer)[0].resolved_to, Some(name(&src.path().join("b.ts"))));
}

#[test]
fn entries_that_are_no_source_files_are_skipped() {
    let mut analyzer = analyzer_at("/p");
    let skipped = analyzer.enqueue_entries(&vec![
        "/p/a.ts".to_string(),
        "/p/readme.md".to_string(),
        "/p/b.jsx".to_string(),
        "/p/data.json".to_string(),
    ]);
    assert_eq!(skipped, vec!["/p/readme.md", "/p/data.json"]);
    assert_eq!(analyzer.queue_len(), 2);
    assert_eq!(analyzer.next_file(), Some("/p/a.ts".to_string()));
    assert_eq!(analyzer.next_file(), Some("/p/b.jsx".to_string()));
    assert_eq!(analyzer.next_file(), None);
}

#[test]
fn the_queue_is_first_in_first_out_and_skips_scanned_files() {
    let mut analyzer = analyzer_at("/p");
    analyzer.enqueue_entries(&vec![
        "/p/a.ts".to_string(),
        "/p/b.ts".to_string(),
        "/p/a.ts".to_string(),
        "/p/c.ts".to_string(),
    ]);
    assert_eq!(analyzer.next_file(), Some("/p/a.ts".to_string()));
    analyzer.visit_with("/p/a.ts", &vec![found("./b", 1, Some("/p/b.ts"))]);
    assert_eq!(analyzer.next_file(), Some("/p/b.ts".to_string()));
    analyzer.visit_with("/p/b.ts", &Vec::new());
    // The second `/p/a.ts` and the `/p/b.ts` that the import queued are dropped.
    assert_eq!(analyzer.next_file(), Some("/p/c.ts".to_string()));
    assert_eq!(analyzer.next_file(), None);
    assert_eq!(analyzer.queue_len(), 0);
}

#[test]
fn a_file_is_scanned_once() {
    let mut analyzer = analyzer_at("/p");
    analyzer.visit_with("/p/a.ts", &vec![found("./b", 1, Some("/p/b.ts"))]);
    assert!(analyzer.is_visited("/p/a.ts"));
    assert!(!analyzer.is_visited("/p/b.ts"));
    analyzer.visit_with("/p/a.ts", &vec![found("./c", 2, Some("/p/c.ts"))]);
    assert_eq!(analyzer.files_processed(), 1);
    assert_eq!(analyzer.imports_found(), 1);
    assert_eq!(analyzer.graph().node_count(), 2);
    assert_eq!(analyzer.graph().edge_count(), 1);
    let again = FileState::Scanned { imports: vec![found("./d", 1, Some("/p/d.ts"))] };
    assert_eq!(analyzer.visit("/p/a.ts", &again), VisitOutcome::AlreadyVisited);
    assert_eq!(analyzer.visit("/p/a.ts", &FileState::Missing), VisitOutcome::AlreadyVisited);
    assert_eq!(analyzer.imports_found(), 1);
}

#[test]
fn every_edge_joins_two_nodes() {
    let mut analyzer = analyzer_at("/p");
    analyzer.visit_with(
        "/p/a.ts",
        &vec![
            found("./b", 1, Some("/p/b.ts")),
            found("./c", 2, Some("/p/c.ts")),
            found("./b", 3, Some("/p/b.ts")),
            found("./a", 4, Some("/p/a.ts")),
        ],
    );
    let graph = analyzer.graph();
    assert_eq!(graph.node_count(), 3);
    assert_eq!(graph.edge_count(), 4);
    let a = graph.node_index("/p/a.ts").unwrap();
    let b = graph.node_index("/p/b.ts").unwrap();
    let c = graph.node_index("/p/c.ts").unwrap();
    assert_eq!((a, b, c), (0, 1, 2));
    assert!(graph.has_edge(a, b) && graph.has_edge(a, c) && graph.has_edge(a, a));
    assert!(!graph.has_edge(b, a) && !graph.has_edge(c, a));
    assert_eq!(analyzer.queue_len(), 4);
}

#[test]
fn imports_that_are_not_followed_are_logged_only() {
    let mut analyzer = analyzer_at("/p");
    analyzer.visit_with(
        "/p/a.ts",
        &vec![
            found("react", 1, Some("/p/node_modules/react/index.js")),
            found("./style.css", 2, Some("/p/style.css")),
            found("./gone", 3, None),
        ],
    );
    assert_eq!(analyzer.graph().node_count(), 1);
    assert_eq!(analyzer.graph().edge_count(), 0);
    assert_eq!(analyzer.queue_len(), 0);
    let log = log_of(&analyzer);
    assert_eq!(log.len(), 3);
    assert_eq!(log[0].resolved_to, None);
    assert_eq!(log[1].resolved_to, Some("/p/style.css".to_string()));
    assert_eq!(log[2].resolved_to, None);
    assert_eq!(log[1].line_number, 2);
    assert_eq!(log[2].to, "./gone");
}

#[test]
fn a_file_that_cannot_be_read_counts_as_scanned() {
    let mut analyzer = analyzer_at("/p");
    assert_eq!(analyzer.visit("/p/a.ts", &FileState::Unreadable), VisitOutcome::Unreadable);
    assert_eq!(analyzer.files_processed(), 1);
    assert_eq!(analyzer.imports_found(), 0);
    assert_eq!(analyzer.graph().node_count(), 1);
    assert!(analyzer.is_visited("/p/a.ts"));
}

#[test]
fn a_missing_file_is_not_scanned() {
    let mut analyzer = analyzer_at("/p");
    assert_eq!(analyzer.visit("/p/a.ts", &FileState::Missing), VisitOutcome::Missing);
    assert_eq!(analyzer.files_processed(), 0);
    assert_eq!(analyzer.graph().node_count(), 0);
    assert!(!analyzer.is_visited("/p/a.ts"));
}

#[test]
fn a_new_analyzer_is_empty_and_has_room() {
    let analyzer = analyzer_at("/p");
    assert_eq!(analyzer.files_processed(), 0);
    assert_eq!(analyzer.imports_found(), 0);
    assert_eq!(analyzer.queue_len(), 0);
    assert!(analyzer.check_room(0));
    assert!(analyzer.check_room(1000));
    assert!(analyzer.check_room(0xffff_fffe));
    assert!(!analyzer.check_room(0xffff_ffff));
}

#[test]
fn log_entries_of_resolved_imports() {
    let record = import_record("/p/a.ts", &found("./b", 12, Some("/p/b.ts")));
    assert_eq!(record.from, "/p/a.ts");
    assert_eq!(record.to, "./b");
    assert_eq!(record.resolved_to, Some("/p/b.ts".to_string()));
    assert_eq!(record.line_number, 12);
    let excluded = import_record("/p/a.ts", &found("lib", 3, Some("/p/node_modules/lib/i.js")));
    assert_eq!(excluded.resolved_to, None);
    assert_eq!(excluded.to, "lib");
    let unresolved = import_record("/p/a.ts", &found("./x", 4, None));
    assert_eq!(unresolved.resolved_to, None);
    let copy = record.clone();
    assert_eq!(copy.from, record.from);
    assert_eq!(copy.resolved_to, record.resolved_to);
    assert_eq!(copy.line_number, record.line_number);
}

#[test]
fn what_was_found_is_to_be_resolved_in_order() {
    let mut analyzer = analyzer_at("/p");
    let request = analyzer.extract_imports_from_file(
        "/p/src/a.ts",
        "import './b';\nimport './gone';\n",
        &vec![false, true],
    );
    assert_eq!(request.imports.len(), 2);
    assert_eq!(request.imports[0].target, "./b");
    assert_eq!(request.imports[0].line_number, 1);
    assert_eq!(request.imports[1].target, "./gone");
    assert_eq!(request.imports[1].line_number, 2);
    assert_eq!(request.directory, "/p/src");
    let pick = request.resolver.unwrap();
    assert_eq!(pick.index, 0);
    let settings = pick.settings.unwrap();
    assert_eq!(settings.config_file, Some("/p/tsconfig.json".to_string()));
    assert_eq!(settings.roots, vec!["/p"]);
    // A second file of the same configuration is served by the same resolver.
    let next = analyzer.extract_imports_from_file("/p/src/b.ts", "import './a';", &vec![false, true]);
    let pick = next.resolver.unwrap();
    assert_eq!(pick.index, 0);
    assert!(pick.settings.is_none());
    // What is asked for visits nothing.
    assert_eq!(analyzer.files_processed(), 0);
    assert_eq!(analyzer.graph().node_count(), 0);
}

#[test]
fn no_resolver_is_asked_for_where_nothing_is_found() {
    let mut analyzer = analyzer_at("/p");
    let request = analyzer.extract_imports_from_file("/p/a.ts", "const x = 1;\n", &vec![true]);
    assert!(request.imports.is_empty());
    assert!(request.resolver.is_none());
    assert_eq!(request.directory, "/p");
}

#[test]
fn a_visit_with_resolved_imports() {
    let mut analyzer = analyzer_at("/p");
    let observed = FileState::Scanned {
        imports: vec![found("./b", 1, Some("/p/b.ts")), found("./gone", 2, None)],
    };
    assert_eq!(analyzer.visit("/p/a.ts", &observed), VisitOutcome::Scanned { imports: 2 });
    assert_eq!(analyzer.files_processed(), 1);
    assert_eq!(analyzer.imports_found(), 2);
    assert_eq!(analyzer.graph().node_count(), 2);
    assert_eq!(analyzer.graph().edge_count(), 1);
    assert_eq!(analyzer.next_file(), Some("/p/b.ts".to_string()));
}

#[test]
fn two_walks_over_the_same_project_agree() {
    let mut project = project(&[
        ("a.ts", "import './b';\nimport './c';\nimport 'left-pad';\n"),
        ("b.ts", "export * from './a';\n"),
        ("c.ts", "import './d';\n"),
        ("d.ts", "const c = require('./c');\nimport './gone';\n"),
    ]);
    let mut runs = Vec::new();
    for _ in 0..2 {
        project.resolvers.clear();
        let mut analyzer = analyzer_at(&name(&project.root));
        let visits = walk(&mut project, &mut analyzer, &["a.ts"]);
        let cycles: Vec<Vec<String>> =
            analyzer.find_circular_dependencies().into_iter().map(|c| c.cycle).collect();
        let graph = analyzer.graph();
        let nodes: Vec<String> = (0..graph.node_count()).map(|i| graph.node_path(i)).collect();
        let mut edges = Vec::new();
        for from in 0..graph.node_count() {
            for to in 0..graph.node_count() {
                if graph.has_edge(from, to) {
                    edges.push((from, to));
                }
            }
        }
        let log: Vec<(String, String, Option<String>, usize)> = log_of(&analyzer)
            .into_iter()
            .map(|i| (i.from, i.to, i.resolved_to, i.line_number))
            .collect();
        runs.push((visits, nodes, edges, cycles, log));
    }
    assert_eq!(runs[0], runs[1]);
    let (visits, nodes, edges, cycles, log) = &runs[0];
    assert_eq!(visits.len(), 4);
    assert_eq!(nodes.len(), 4);
    assert_eq!(edges, &vec![(0, 1), (0, 2), (1, 0), (2, 3), (3, 2)]);
    assert_eq!(cycles.len(), 2);
    assert_eq!(log.len(), 7);
}
