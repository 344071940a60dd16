use rustyring::analyzer::DependencyAnalyzer;
use rustyring::traversal::{
    answers_from, find_answer, find_file, Diagnostic, FileContent, Resolution, SourceFile,
};

fn loaded(path: &str, content: &str) -> SourceFile {
    SourceFile {
        path: path.to_string(),
        state: FileContent::Loaded { content: content.to_string(), configs_present: vec![] },
    }
}

fn leads(file: &str, target: &str, resolved: Option<&str>) -> Resolution {
    Resolution {
        file: file.to_string(),
        target: target.to_string(),
        resolved: resolved.map(String::from),
    }
}

fn fresh() -> DependencyAnalyzer {
    DependencyAnalyzer::new("/p").ok().unwrap()
}

fn paths(list: &[&str]) -> Vec<String> {
    list.iter().map(|p| p.to_string()).collect()
}

#[test]
fn a_project_in_memory_is_walked_to_the_end() {
    let files = vec![
        loaded("/p/a.ts", "import './b';\nimport './c';\n"),
        loaded("/p/b.ts", "import './a';\n"),
        loaded("/p/c.ts", "export const c = 1;\n"),
    ];
    let table = vec![
        leads("/p/a.ts", "./b", Some("/p/b.ts")),
        leads("/p/a.ts", "./c", Some("/p/c.ts")),
        leads("/p/b.ts", "./a", Some("/p/a.ts")),
    ];
    let mut analyzer = fresh();
    let diagnostics =
        analyzer.build_dependency_graph(&paths(&["/p/a.ts"]), &files, &table).ok().unwrap();
    assert!(diagnostics.is_empty());
    assert_eq!(analyzer.queue_len(), 0);
    assert_eq!(analyzer.files_processed(), 3);
    assert_eq!(analyzer.imports_found(), 3);
    assert_eq!(analyzer.graph().node_count(), 3);
    assert_eq!(analyzer.graph().edge_count(), 3);
    let cycles = analyzer.find_circular_dependencies();
    assert_eq!(cycles.len(), 1);
    let mut cycle = cycles[0].cycle.clone();
    cycle.sort();
    assert_eq!(cycle, paths(&["/p/a.ts", "/p/b.ts"]));
    let log = analyzer.get_analysis_result(&cycles).imports;
    assert_eq!(log[0].from, "/p/a.ts");
    assert_eq!(log[0].resolved_to, Some("/p/b.ts".to_string()));
    assert_eq!(log[1].resolved_to, Some("/p/c.ts".to_string()));
    assert_eq!(log[2].from, "/p/b.ts");
    assert_eq!(log[2].line_number, 1);
}

#[test]
fn what_the_walk_cannot_use_is_reported() {
    let files = vec![
        loaded("/p/a.ts", "import './b';\nimport './c';\nimport './d';\n"),
        SourceFile { path: "/p/b.ts".to_string(), state: FileContent::Unreadable },
        SourceFile { path: "/p/c.ts".to_string(), state: FileContent::Missing },
    ];
    let table = vec![
        leads("/p/a.ts", "./b", Some("/p/b.ts")),
        leads("/p/a.ts", "./c", Some("/p/c.ts")),
        leads("/p/a.ts", "./d", Some("/p/d.ts")),
    ];
    let mut analyzer = fresh();
    let entries = paths(&["/p/notes.md", "/p/a.ts", "/p/gone.ts"]);
    let diagnostics = analyzer.build_dependency_graph(&entries, &files, &table).ok().unwrap();
    assert_eq!(
        diagnostics,
        vec![
            Diagnostic::UnsupportedEntry("/p/notes.md".to_string()),
            Diagnostic::MissingFile("/p/gone.ts".to_string()),
            Diagnostic::UnreadableFile("/p/b.ts".to_string()),
            Diagnostic::MissingFile("/p/c.ts".to_string()),
            Diagnostic::MissingFile("/p/d.ts".to_string()),
        ]
    );
    assert!(analyzer.is_visited("/p/a.ts"));
    assert!(analyzer.is_visited("/p/b.ts"));
    assert!(!analyzer.is_visited("/p/c.ts"));
    assert!(!analyzer.is_visited("/p/d.ts"));
    assert_eq!(analyzer.files_processed(), 2);
    assert_eq!(analyzer.graph().node_count(), 4);
    assert_eq!(analyzer.graph().edge_count(), 3);
    assert_eq!(analyzer.queue_len(), 0);
}

#[test]
fn imports_without_a_resolution_are_logged_only() {
    let files = vec![loaded("/p/a.ts", "import 'left-pad';\nimport './b';\n"), loaded("/p/b.ts", "")];
    let table = vec![
        leads("/p/b.ts", "./b", Some("/p/a.ts")),
        leads("/p/a.ts", "left-pad", Some("/p/node_modules/left-pad/index.js")),
    ];
    let mut analyzer = fresh();
    let diagnostics =
        analyzer.build_dependency_graph(&paths(&["/p/a.ts"]), &files, &table).ok().unwrap();
    assert!(diagnostics.is_empty());
    assert_eq!(analyzer.files_processed(), 1);
    assert_eq!(analyzer.graph().node_count(), 1);
    assert_eq!(analyzer.graph().edge_count(), 0);
    let log = analyzer.get_analysis_result(&Vec::new()).imports;
    assert_eq!(log.len(), 2);
    assert_eq!(log[0].to, "left-pad");
    assert_eq!(log[0].resolved_to, None);
    assert_eq!(log[1].to, "./b");
    assert_eq!(log[1].resolved_to, None);
}

#[test]
fn a_second_walk_scans_nothing_again() {
    let files = vec![loaded("/p/a.ts", "import './b';\n"), loaded("/p/b.ts", "import './a';\n")];
    let table = vec![
        leads("/p/a.ts", "./b", Some("/p/b.ts")),
        leads("/p/b.ts", "./a", Some("/p/a.ts")),
    ];
    let entries = paths(&["/p/a.ts", "/p/b.ts"]);
    let mut analyzer = fresh();
    assert!(analyzer.build_dependency_graph(&entries, &files, &table).ok().unwrap().is_empty());
    let scanned = analyzer.files_processed();
    let logged = analyzer.imports_found();
    assert!(analyzer.build_dependency_graph(&entries, &files, &table).ok().unwrap().is_empty());
    assert_eq!(analyzer.files_processed(), scanned);
    assert_eq!(analyzer.imports_found(), logged);
    assert_eq!(scanned, 2);
    assert_eq!(logged, 2);
}

#[test]
fn two_walks_over_one_project_agree() {
    let files = vec![
        loaded("/p/a.ts", "import './b';\nimport './c';\n"),
        loaded("/p/b.ts", "export * from './a';\n"),
        loaded("/p/c.ts", "const d = require('./d');\n"),
        loaded("/p/d.ts", "import './c';\nimport './gone';\n"),
    ];
    let table = vec![
        leads("/p/a.ts", "./b", Some("/p/b.ts")),
        leads("/p/a.ts", "./c", Some("/p/c.ts")),
        leads("/p/b.ts", "./a", Some("/p/a.ts")),
        leads("/p/c.ts", "./d", Some("/p/d.ts")),
        leads("/p/d.ts", "./c", Some("/p/c.ts")),
    ];
    let mut runs = Vec::new();
    for _ in 0..2 {
        let mut analyzer = fresh();
        let diagnostics =
            analyzer.build_dependency_graph(&paths(&["/p/a.ts"]), &files, &table).ok().unwrap();
        let cycles: Vec<Vec<String>> =
            analyzer.find_circular_dependencies().into_iter().map(|c| c.cycle).collect();
        let graph = analyzer.graph();
        let nodes: Vec<String> = (0..graph.node_count()).map(|i| graph.node_path(i)).collect();
        let log: Vec<(String, String, Option<String>, usize)> = analyzer
            .get_analysis_result(&Vec::new())
            .imports
            .into_iter()
            .map(|i| (i.from, i.to, i.resolved_to, i.line_number))
            .collect();
        runs.push((diagnostics, nodes, graph.edge_count(), cycles, log));
    }
    assert_eq!(runs[0], runs[1]);
    assert_eq!(runs[0].1, paths(&["/p/a.ts", "/p/b.ts", "/p/c.ts", "/p/d.ts"]));
    assert_eq!(runs[0].2, 5);
    assert_eq!(runs[0].3.len(), 2);
    assert_eq!(runs[0].4.len(), 6);
}

#[test]
fn a_walk_without_entries_does_nothing() {
    let mut analyzer = fresh();
    let diagnostics =
        analyzer.build_dependency_graph(&Vec::new(), &Vec::new(), &Vec::new()).ok().unwrap();
    assert!(diagnostics.is_empty());
    assert_eq!(analyzer.files_processed(), 0);
    assert_eq!(analyzer.graph().node_count(), 0);
}

#[test]
fn the_first_entry_of_a_path_speaks_for_it() {
    let files = vec![
        SourceFile { path: "/p/a.ts".to_string(), state: FileContent::Missing },
        SourceFile { path: "/p/b.ts".to_string(), state: FileContent::Unreadable },
        SourceFile { path: "/p/a.ts".to_string(), state: FileContent::Unreadable },
    ];
    assert_eq!(find_file(&files, "/p/a.ts"), Some(0));
    assert_eq!(find_file(&files, "/p/b.ts"), Some(1));
    assert_eq!(find_file(&files, "/p/c.ts"), None);
    let mut analyzer = fresh();
    let diagnostics = analyzer
        .build_dependency_graph(&paths(&["/p/a.ts", "/p/b.ts"]), &files, &Vec::new())
        .ok()
        .unwrap();
    assert_eq!(
        diagnostics,
        vec![
            Diagnostic::MissingFile("/p/a.ts".to_string()),
            Diagnostic::UnreadableFile("/p/b.ts".to_string()),
        ]
    );
}

#[test]
fn the_first_resolution_of_an_import_speaks_for_it() {
    let table = vec![
        leads("/p/a.ts", "./b", Some("/p/b.ts")),
        leads("/p/a.ts", "./b", Some("/p/other.ts")),
        leads("/p/a.ts", "./gone", None),
        leads("/p/b.ts", "./b", Some("/p/b.ts")),
    ];
    assert_eq!(find_answer(&table, "/p/a.ts", "./b"), Some("/p/b.ts".to_string()));
    assert_eq!(find_answer(&table, "/p/a.ts", "./gone"), None);
    assert_eq!(find_answer(&table, "/p/a.ts", "./c"), None);
    assert_eq!(find_answer(&table, "/p/c.ts", "./b"), None);
    assert_eq!(find_answer(&Vec::new(), "/p/a.ts", "./b"), None);
    let found = fresh()
        .extract_imports_from_file("/p/a.ts", "import './gone';\nimport './b';\n", &vec![])
        .imports;
    let resolved = answers_from(&table, "/p/a.ts", &found);
    assert_eq!(resolved.len(), 2);
    assert_eq!(resolved[0].target, "./gone");
    assert_eq!(resolved[0].line_number, 1);
    assert_eq!(resolved[0].resolved, None);
    assert_eq!(resolved[1].target, "./b");
    assert_eq!(resolved[1].line_number, 2);
    assert_eq!(resolved[1].resolved, Some("/p/b.ts".to_string()));
}

#[test]
fn a_walk_from_a_missing_entry_scans_nothing() {
    let mut analyzer = fresh();
    let diagnostics = analyzer
        .build_dependency_graph(&paths(&["/p/gone.ts"]), &Vec::new(), &Vec::new())
        .ok()
        .unwrap();
    assert_eq!(diagnostics, vec![Diagnostic::MissingFile("/p/gone.ts".to_string())]);
    assert_eq!(analyzer.files_processed(), 0);
    assert_eq!(analyzer.imports_found(), 0);
    assert_eq!(analyzer.queue_len(), 0);
    assert_eq!(analyzer.graph().node_count(), 0);
    assert_eq!(analyzer.graph().edge_count(), 0);
    assert!(analyzer.find_circular_dependencies().is_empty());
}

#[test]
fn a_missing_file_is_reported_as_often_as_it_waits() {
    let mut analyzer = fresh();
    let entries = paths(&["/p/gone.ts", "/p/notes.txt", "/p/gone.ts"]);
    let diagnostics =
        analyzer.build_dependency_graph(&entries, &Vec::new(), &Vec::new()).ok().unwrap();
    assert_eq!(
        diagnostics,
        vec![
            Diagnostic::UnsupportedEntry("/p/notes.txt".to_string()),
            Diagnostic::MissingFile("/p/gone.ts".to_string()),
            Diagnostic::MissingFile("/p/gone.ts".to_string()),
        ]
    );
    assert_eq!(analyzer.files_processed(), 0);
}

#[test]
fn only_what_the_entries_reach_is_scanned() {
    let files = vec![
        loaded("/p/a.ts", "import './b';\n"),
        loaded("/p/b.ts", "export const b = 1;\n"),
        loaded("/p/apart.ts", "import './a';\n"),
    ];
    let table = vec![
        leads("/p/a.ts", "./b", Some("/p/b.ts")),
        leads("/p/apart.ts", "./a", Some("/p/a.ts")),
    ];
    let mut analyzer = fresh();
    let entries = paths(&["/p/a.ts", "/p/readme.md"]);
    let diagnostics = analyzer.build_dependency_graph(&entries, &files, &table).ok().unwrap();
    assert_eq!(diagnostics, vec![Diagnostic::UnsupportedEntry("/p/readme.md".to_string())]);
    assert!(analyzer.is_visited("/p/a.ts"));
    assert!(analyzer.is_visited("/p/b.ts"));
    assert!(!analyzer.is_visited("/p/apart.ts"));
    assert!(!analyzer.is_visited("/p/readme.md"));
    assert_eq!(analyzer.graph().node_index("/p/apart.ts"), None);
    assert_eq!(analyzer.graph().node_index("/p/readme.md"), None);
    assert_eq!(analyzer.files_processed(), 2);
    assert_eq!(analyzer.imports_found(), 1);
}
