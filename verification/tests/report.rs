use rustyring::cycles::CircularDependency;
use rustyring::model::{AnalysisResult, ImportInfo};
use rustyring::report::{
    collect_circular_files, exit_status, generate_dot_output, in_one_cycle, render_text_results,
    OutputFormat,
};

fn import(from: &str, to: &str, resolved: Option<&str>, line: usize) -> ImportInfo {
    ImportInfo {
        from: from.to_string(),
        to: to.to_string(),
        resolved_to: resolved.map(String::from),
        line_number: line,
    }
}

fn cycle(files: &[&str]) -> CircularDependency {
    CircularDependency { cycle: files.iter().map(|f| f.to_string()).collect() }
}

fn two_file_result() -> AnalysisResult {
    AnalysisResult {
        files_processed: 3,
        imports_found: 4,
        circular_dependencies: vec![cycle(&["/p/src/b.ts", "/p/src/a.ts"])],
        imports: vec![
            import("/p/src/a.ts", "./b", Some("/p/src/b.ts"), 1),
            import("/p/src/a.ts", "./c", Some("/p/src/c.ts"), 2),
            import("/p/src/b.ts", "./a", Some("/p/src/a.ts"), 7),
            import("/p/src/b.ts", "fs", None, 8),
        ],
    }
}

#[test]
fn dot_without_cycles() {
    let result = AnalysisResult {
        files_processed: 1,
        imports_found: 0,
        circular_dependencies: vec![],
        imports: vec![],
    };
    let expected = "digraph circular_dependencies {\n  rankdir=LR;\n  node [shape=box, style=rounded, color=red, fontcolor=red];\n  edge [fontsize=10, color=red, penwidth=2];\n\n  no_cycles [label=\"No Circular Dependencies Found\", shape=ellipse, color=green, fontcolor=green];\n}\n";
    assert_eq!(generate_dot_output(&result, "/p"), expected);
}

#[test]
fn dot_with_a_cycle() {
    let expected = "digraph circular_dependencies {\n  rankdir=LR;\n  node [shape=box, style=rounded, color=red, fontcolor=red];\n  edge [fontsize=10, color=red, penwidth=2];\n\n  n0 [label=\"src/b.ts\"];\n  n1 [label=\"src/a.ts\"];\n\n  n1 -> n0;\n  n0 -> n1;\n\n  subgraph cluster_cycle_0 {\n    label=\"Circular Dependency #1\";\n    style=dashed;\n    color=red;\n    n0;\n    n1;\n  }\n}\n";
    assert_eq!(generate_dot_output(&two_file_result(), "/p"), expected);
}

#[test]
fn dot_with_two_cycles() {
    let result = AnalysisResult {
        files_processed: 4,
        imports_found: 4,
        circular_dependencies: vec![cycle(&["b.ts", "a.ts"]), cycle(&["d.ts", "c.ts"])],
        imports: vec![
            import("a.ts", "./b", Some("b.ts"), 1),
            import("b.ts", "./a", Some("a.ts"), 1),
            import("b.ts", "./c", Some("c.ts"), 2),
            import("c.ts", "./d", Some("d.ts"), 1),
            import("d.ts", "./c", Some("c.ts"), 1),
            import("d.ts", "./e", Some("e.ts"), 2),
        ],
    };
    let expected = "digraph circular_dependencies {\n  rankdir=LR;\n  node [shape=box, style=rounded, color=red, fontcolor=red];\n  edge [fontsize=10, color=red, penwidth=2];\n\n  n0 [label=\"b.ts\"];\n  n1 [label=\"a.ts\"];\n  n2 [label=\"d.ts\"];\n  n3 [label=\"c.ts\"];\n\n  n1 -> n0;\n  n0 -> n1;\n  n3 -> n2;\n  n2 -> n3;\n\n  subgraph cluster_cycle_0 {\n    label=\"Circular Dependency #1\";\n    style=dashed;\n    color=red;\n    n0;\n    n1;\n  }\n\n  subgraph cluster_cycle_1 {\n    label=\"Circular Dependency #2\";\n    style=dashed;\n    color=red;\n    n2;\n    n3;\n  }\n}\n";
    assert_eq!(generate_dot_output(&result, "/p"), expected);
}

#[test]
fn files_of_cycles_are_collected_once() {
    let cycles = vec![cycle(&["b", "a"]), cycle(&["a", "c", "b"]), cycle(&[])];
    assert_eq!(collect_circular_files(&cycles), vec!["b", "a", "c"]);
    assert!(collect_circular_files(&Vec::new()).is_empty());
}

#[test]
fn text_without_cycles() {
    let result = AnalysisResult {
        files_processed: 12,
        imports_found: 30,
        circular_dependencies: vec![],
        imports: vec![],
    };
    let expected = "\u{1F4CA} Processed 12 files\n\u{1F517} Found 30 imports\n\u{2705} No circular dependencies found!\n";
    assert_eq!(render_text_results(&result, false, "/p"), expected);
    assert_eq!(render_text_results(&result, true, "/p"), expected);
}

#[test]
fn text_with_a_cycle() {
    let expected = "\u{1F4CA} Processed 3 files\n\u{1F517} Found 4 imports\n\u{1F534} Found 1 circular dependencies:\n\nCircular Dependency #1:\n  \u{251C}\u{2500} src/b.ts \u{2192} src/a.ts\n  \u{2514}\u{2500} src/a.ts \u{2192} src/b.ts (completes circle)\n\n";
    assert_eq!(render_text_results(&two_file_result(), false, "/p"), expected);
}

#[test]
fn text_with_details() {
    let expected = "\u{1F4CA} Processed 3 files\n\u{1F517} Found 4 imports\n\u{1F534} Found 1 circular dependencies:\n\nCircular Dependency #1:\n  \u{251C}\u{2500} src/b.ts \u{2192} src/a.ts\n  \u{2514}\u{2500} src/a.ts \u{2192} src/b.ts (completes circle)\n  Dependencies involved:\n    From src/b.ts:\n      - Line 7: ./a \u{2192} src/a.ts\n    From src/a.ts:\n      - Line 1: ./b \u{2192} src/b.ts\n\n";
    assert_eq!(render_text_results(&two_file_result(), true, "/p"), expected);
}

#[test]
fn text_of_a_file_that_imports_itself() {
    let result = AnalysisResult {
        files_processed: 1,
        imports_found: 1,
        circular_dependencies: vec![cycle(&["/p/a.ts"])],
        imports: vec![import("/p/a.ts", "./a", Some("/p/a.ts"), 3)],
    };
    let expected = "\u{1F4CA} Processed 1 files\n\u{1F517} Found 1 imports\n\u{1F534} Found 1 circular dependencies:\n\nCircular Dependency #1:\n  \u{2514}\u{2500} a.ts \u{2192} a.ts (completes circle)\n  Dependencies involved:\n    From a.ts:\n      - Line 3: ./a \u{2192} a.ts\n\n";
    assert_eq!(render_text_results(&result, true, "/p"), expected);
}

#[test]
fn exit_status_of_each_format() {
    assert_eq!(exit_status(OutputFormat::Text, 0), 0);
    assert_eq!(exit_status(OutputFormat::Text, 1), 1);
    assert_eq!(exit_status(OutputFormat::Text, 5), 1);
    assert_eq!(exit_status(OutputFormat::Json, 0), 0);
    assert_eq!(exit_status(OutputFormat::Json, 2), 0);
    assert_eq!(exit_status(OutputFormat::Dot, 0), 0);
    assert_eq!(exit_status(OutputFormat::Dot, 2), 0);
}

#[test]
fn dot_draws_only_imports_on_a_cycle() {
    let result = AnalysisResult {
        files_processed: 4,
        imports_found: 5,
        circular_dependencies: vec![cycle(&["/p/a.ts", "/p/b.ts"]), cycle(&["/p/c.ts", "/p/d.ts"])],
        imports: vec![
            import("/p/a.ts", "./b", Some("/p/b.ts"), 1),
            import("/p/b.ts", "./a", Some("/p/a.ts"), 1),
            import("/p/c.ts", "./d", Some("/p/d.ts"), 1),
            import("/p/d.ts", "./c", Some("/p/c.ts"), 1),
            import("/p/a.ts", "./c", Some("/p/c.ts"), 2),
        ],
    };
    let dot = generate_dot_output(&result, "/p");
    assert_eq!(dot.matches(" -> ").count(), 4);
    assert!(!dot.contains("n0 -> n2"));
    assert!(dot.contains("  n0 -> n1;\n  n1 -> n0;\n  n2 -> n3;\n  n3 -> n2;\n"));
}

#[test]
fn files_of_one_cycle() {
    let cycles = vec![cycle(&["a", "b"]), cycle(&["c", "d"])];
    assert!(in_one_cycle(&cycles, "a", "b"));
    assert!(in_one_cycle(&cycles, "d", "c"));
    assert!(in_one_cycle(&cycles, "a", "a"));
    assert!(!in_one_cycle(&cycles, "a", "c"));
    assert!(!in_one_cycle(&cycles, "a", "e"));
    assert!(!in_one_cycle(&Vec::new(), "a", "a"));
}
