use oxc_resolver::{ResolveOptions, Resolver, TsconfigOptions, TsconfigReferences};
use rustyring::resolver::{
    config_candidates, nearest_config, settings_for, ProjectReferences, ResolverCache,
    ResolverSettings,
};
use std::io::Write;
use std::path::{Path, PathBuf};

fn put(path: &Path, content: &str) {
    let mut file = tempfile::NamedTempFile::new_in(path.parent().unwrap()).unwrap();
    file.write_all(content.as_bytes()).unwrap();
    file.persist(path).unwrap();
}

fn text(path: &Path) -> String {
    path.to_string_lossy().into_owned()
}

/// The resolver that a caller makes of the settings that the cache hands out.
fn resolver_of(settings: &ResolverSettings) -> Resolver {
    let references = match settings.references {
        ProjectReferences::Disabled => TsconfigReferences::Disabled,
        ProjectReferences::Auto => TsconfigReferences::Auto,
    };
    Resolver::new(ResolveOptions {
        extensions: settings.extensions.clone(),
        condition_names: settings.condition_names.clone(),
        main_fields: settings.main_fields.clone(),
        roots: settings.roots.iter().map(PathBuf::from).collect(),
        tsconfig: settings.config_file.as_ref().map(|config_file| TsconfigOptions {
            config_file: PathBuf::from(config_file),
            references,
        }),
        ..ResolveOptions::default()
    })
}

fn resolve(resolver: &Resolver, directory: &Path, target: &str) -> Option<String> {
    resolver.resolve(directory, target).ok().map(|r| text(r.path()))
}

#[test]
fn candidates_go_up_to_the_project_root() {
    assert_eq!(
        config_candidates("/p", "/p/src/lib/a.ts"),
        vec!["/p/src/lib/tsconfig.json", "/p/src/tsconfig.json", "/p/tsconfig.json"]
    );
}

#[test]
fn the_root_is_compared_as_a_path() {
    assert_eq!(
        config_candidates("/p/", "/p/src/a.ts"),
        vec!["/p/src/tsconfig.json", "/p/tsconfig.json"]
    );
}

#[test]
fn candidates_outside_the_root_go_up_to_the_top() {
    assert_eq!(
        config_candidates("/p", "/q/src/a.ts"),
        vec!["/q/src/tsconfig.json", "/q/tsconfig.json", "/tsconfig.json"]
    );
    assert_eq!(config_candidates(".", "src/a.ts"), vec!["src/tsconfig.json", "tsconfig.json"]);
}

#[test]
fn a_path_without_a_parent_has_no_candidate() {
    assert!(config_candidates("/p", "/").is_empty());
    assert!(config_candidates("/p", "").is_empty());
}

#[test]
fn the_nearest_existing_candidate_wins() {
    let candidates = vec!["/p/a/tsconfig.json".to_string(), "/p/tsconfig.json".to_string()];
    assert_eq!(nearest_config(&candidates, &vec![false, true]), Some("/p/tsconfig.json".to_string()));
    assert_eq!(nearest_config(&candidates, &vec![true, true]), Some("/p/a/tsconfig.json".to_string()));
    assert_eq!(nearest_config(&candidates, &vec![false, false]), None);
    assert_eq!(nearest_config(&candidates, &vec![]), None);
    assert_eq!(nearest_config(&candidates, &vec![false]), None);
    assert_eq!(nearest_config(&Vec::new(), &vec![true]), None);
}

#[test]
fn the_settings_of_a_resolver() {
    let settings = settings_for("/p", &Some("/p/tsconfig.json".to_string()));
    assert_eq!(settings.extensions, vec![".ts", ".tsx", ".js", ".jsx", ".mjs", ".cjs"]);
    assert_eq!(settings.condition_names, vec!["import", "require", "node"]);
    assert_eq!(settings.main_fields, vec!["main", "module", "browser"]);
    assert_eq!(settings.roots, vec!["/p"]);
    assert_eq!(settings.config_file, Some("/p/tsconfig.json".to_string()));
    assert!(settings.references == ProjectReferences::Auto);
    assert_eq!(settings_for("/p", &None).config_file, None);
}

#[test]
fn one_resolver_for_each_configuration() {
    let mut cache = ResolverCache::new("/p");
    assert_eq!(cache.len(), 0);
    let first = cache.resolver_for(&None);
    assert_eq!(first.index, 0);
    assert_eq!(first.settings.unwrap().config_file, None);
    let second = cache.resolver_for(&Some("/p/tsconfig.json".to_string()));
    assert_eq!(second.index, 1);
    assert_eq!(second.settings.unwrap().config_file, Some("/p/tsconfig.json".to_string()));
    let again = cache.resolver_for(&None);
    assert_eq!(again.index, 0);
    assert!(again.settings.is_none());
    let again = cache.resolver_for(&Some("/p/tsconfig.json".to_string()));
    assert_eq!(again.index, 1);
    assert!(again.settings.is_none());
    let third = cache.resolver_for(&Some("/p/a/tsconfig.json".to_string()));
    assert_eq!(third.index, 2);
    assert!(third.settings.is_some());
    assert_eq!(cache.len(), 3);
}

#[test]
fn the_governing_configuration_is_found() {
    let cache = ResolverCache::new("/p");
    assert_eq!(
        cache.find_tsconfig_for_file("/p/src/a.ts", &vec![false, true]),
        Some("/p/tsconfig.json".to_string())
    );
    assert_eq!(cache.find_tsconfig_for_file("/p/src/a.ts", &vec![false, false]), None);
}

#[test]
fn files_of_one_configuration_share_a_resolver() {
    let mut cache = ResolverCache::new("/p");
    let first = cache.get_resolver_for_file("/p/src/a.ts", &vec![false, true]);
    let second = cache.get_resolver_for_file("/p/src/b.ts", &vec![false, true]);
    let third = cache.get_resolver_for_file("/p/lib/c.ts", &vec![false, false]);
    assert_eq!(first.index, second.index);
    assert!(third.index != first.index);
    assert_eq!(first.settings.unwrap().config_file, Some("/p/tsconfig.json".to_string()));
    assert!(second.settings.is_none());
    assert_eq!(third.settings.unwrap().config_file, None);
    assert_eq!(cache.len(), 2);
}

#[test]
fn the_settings_make_a_resolver_of_source_files() {
    let dir = tempfile::tempdir().unwrap();
    let root = dir.path().canonicalize().unwrap();
    put(&root.join("a.ts"), "");
    put(&root.join("b.tsx"), "");
    let mut cache = ResolverCache::new(&text(&root));
    let pick = cache.resolver_for(&None);
    let resolver = resolver_of(&pick.settings.unwrap());
    assert_eq!(resolve(&resolver, &root, "./a"), Some(text(&root.join("a.ts"))));
    assert_eq!(resolve(&resolver, &root, "./b"), Some(text(&root.join("b.tsx"))));
    assert_eq!(resolve(&resolver, &root, "./a.ts"), Some(text(&root.join("a.ts"))));
    assert_eq!(resolve(&resolver, &root, "./missing"), None);
    assert_eq!(resolve(&resolver, &root, "no-such-package"), None);
}

#[test]
fn path_mappings_come_from_the_configuration() {
    let dir = tempfile::tempdir().unwrap();
    let root = dir.path().canonicalize().unwrap();
    let lib = tempfile::Builder::new().prefix("lib").tempdir_in(&root).unwrap();
    put(&lib.path().join("util.ts"), "");
    let mapped = format!("{}/*", lib.path().file_name().unwrap().to_string_lossy());
    let config = format!(
        "{{ \"compilerOptions\": {{ \"baseUrl\": \".\", \"paths\": {{ \"@lib/*\": [\"{}\"] }} }} }}",
        mapped
    );
    put(&root.join("tsconfig.json"), &config);
    let mut cache = ResolverCache::new(&text(&root));
    let with_config =
        resolver_of(&cache.resolver_for(&Some(text(&root.join("tsconfig.json")))).settings.unwrap());
    let without = resolver_of(&cache.resolver_for(&None).settings.unwrap());
    assert_eq!(resolve(&with_config, &root, "@lib/util"), Some(text(&lib.path().join("util.ts"))));
    assert_eq!(resolve(&without, &root, "@lib/util"), None);
}
