use rustyring::paths::{
    base_directory, extension_is_supported, is_excluded, is_supported_file, relative_to,
};

#[test]
fn source_extensions_are_supported() {
    for path in ["a.js", "a.jsx", "a.ts", "a.tsx", "a.mjs", "a.cjs", "/x/y.d.ts", "dir.d/b.js"] {
        assert!(is_supported_file(path), "{}", path);
    }
}

#[test]
fn other_files_are_not_supported() {
    for path in ["a.json", "a.css", "a", "", ".ts", "dir.ts/readme", "a.TS", "a.ts.bak", "ts"] {
        assert!(!is_supported_file(path), "{}", path);
    }
}

#[test]
fn extension_decides() {
    assert!(extension_is_supported(&Some("ts".to_string())));
    assert!(extension_is_supported(&Some("cjs".to_string())));
    assert!(!extension_is_supported(&Some(".ts".to_string())));
    assert!(!extension_is_supported(&Some("json".to_string())));
    assert!(!extension_is_supported(&Some(String::new())));
    assert!(!extension_is_supported(&None));
}

#[test]
fn dependency_directories_are_excluded() {
    assert!(is_excluded("/p/node_modules/lib/index.js"));
    assert!(is_excluded("node_modules"));
    assert!(is_excluded("/p/my_node_modules/a.ts"));
    assert!(!is_excluded("/p/src/a.ts"));
    assert!(!is_excluded("/p/node-modules/a.ts"));
    assert!(!is_excluded(""));
}

#[test]
fn paths_are_shown_below_the_root() {
    assert_eq!(relative_to("/p/src/a.ts", "/p"), "src/a.ts");
    assert_eq!(relative_to("/p/src/a.ts", "/p/"), "src/a.ts");
    assert_eq!(relative_to("/q/a.ts", "/p"), "/q/a.ts");
    assert_eq!(relative_to("/p", "/p"), "");
    assert_eq!(relative_to("/pq/a.ts", "/p"), "/pq/a.ts");
}

#[test]
fn imports_resolve_against_the_directory_of_the_file() {
    assert_eq!(base_directory("/p/src/a.ts"), "/p/src");
    assert_eq!(base_directory("a.ts"), "");
    assert_eq!(base_directory("/"), ".");
    assert_eq!(base_directory(""), ".");
}
