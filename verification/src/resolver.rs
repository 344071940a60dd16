//! The resolver context cache: finds the project configuration that governs a
//! file and keeps track of the resolvers of a run, one for each
//! configuration. The resolvers themselves read the disk, so they are made
//! and kept by the caller; the cache says which one serves a file, and with
//! which settings one is made.

use crate::paths::{
    ancestors_of, config_file_name, directories_above, equal_paths, join_of, optional_text,
    path_equal, path_join,
};
use vstd::prelude::*;

verus! {

/// How a resolver treats the project references of a configuration file.
#[derive(Clone, Copy, Debug, PartialEq, Eq, Structural)]
pub enum ProjectReferences {
    /// References are not followed.
    Disabled,
    /// The references that the configuration file names are followed.
    Auto,
}

/// What a resolver is configured with. What is not listed here is left as
/// the resolver crate has it by default: the package manifest is
/// `package.json` with its `exports` and `imports` maps, packages are looked
/// up in `node_modules`, a directory stands for its `index` file, symbolic
/// links are followed, and there are no aliases, fallbacks or restrictions.
#[derive(Debug)]
pub struct ResolverSettings {
    /// Extensions that are tried on a target without one, with their dot.
    pub extensions: Vec<String>,
    /// Conditions under which an entry of an exports or imports map applies.
    pub condition_names: Vec<String>,
    /// Manifest fields that name the entry file of a package.
    pub main_fields: Vec<String>,
    /// Directories against which a target that starts with `/` is resolved.
    pub roots: Vec<String>,
    /// The configuration file whose path mappings apply, if there is one.
    pub config_file: Option<String>,
    /// Whether the references of the configuration file are followed.
    pub references: ProjectReferences,
}

/// An extension as the resolver takes it: empty, or with its dot in front.
pub open spec fn is_dotted(extension: Seq<char>) -> bool {
    extension.len() == 0 || extension[0] == '.'
}

/// Every extension of the list is empty or has its dot in front.
pub open spec fn all_dotted(extensions: Seq<Seq<char>>) -> bool {
    forall|i: int| 0 <= i < extensions.len() ==> is_dotted(#[trigger] extensions[i])
}

/// The extensions that the resolver tries on a target without one.
pub open spec fn source_extensions() -> Seq<Seq<char>> {
    seq![".ts"@, ".tsx"@, ".js"@, ".jsx"@, ".mjs"@, ".cjs"@]
}

/// Each of the source extensions has its dot in front.
pub proof fn lemma_source_extensions_dotted()
    ensures
        all_dotted(source_extensions()),
{
    reveal_strlit(".ts");
    reveal_strlit(".tsx");
    reveal_strlit(".js");
    reveal_strlit(".jsx");
    reveal_strlit(".mjs");
    reveal_strlit(".cjs");
    let extensions = source_extensions();
    assert forall|i: int| 0 <= i < extensions.len() implies is_dotted(#[trigger] extensions[i]) by {
        if i == 0 {
        } else if i == 1 {
        } else if i == 2 {
        } else if i == 3 {
        } else if i == 4 {
        } else {
        }
    }
}

/// The conditions under which the resolver reads exports and imports maps.
pub open spec fn import_conditions() -> Seq<Seq<char>> {
    seq!["import"@, "require"@, "node"@]
}

/// The manifest fields in which the resolver looks for a package's entry
/// file.
pub open spec fn entry_fields() -> Seq<Seq<char>> {
    seq!["main"@, "module"@, "browser"@]
}

/// The settings of the resolver for one configuration: the source
/// extensions, the conditions and entry fields above, the project root as the
/// only root, and the path mappings of the configuration file, if there is
/// one, with its references followed.
pub open spec fn is_settings_for(
    settings: ResolverSettings,
    root: Seq<char>,
    config: Option<Seq<char>>,
) -> bool {
    &&& settings.extensions.deep_view() == source_extensions()
    &&& settings.condition_names.deep_view() == import_conditions()
    &&& settings.main_fields.deep_view() == entry_fields()
    &&& settings.roots.deep_view() == seq![root]
    &&& optional_text(settings.config_file) == config
    &&& settings.references == ProjectReferences::Auto
}

/// The settings of the resolver for the files that `config` governs.
pub fn settings_for(root: &str, config: &Option<String>) -> (settings: ResolverSettings)
    ensures
        is_settings_for(settings, root@, optional_text(*config)),
        all_dotted(settings.extensions.deep_view()),
{
    proof {
        lemma_source_extensions_dotted();
    }
    let mut extensions: Vec<String> = Vec::new();
    extensions.push(".ts".to_owned());
    extensions.push(".tsx".to_owned());
    extensions.push(".js".to_owned());
    extensions.push(".jsx".to_owned());
    extensions.push(".mjs".to_owned());
    extensions.push(".cjs".to_owned());
    let mut condition_names: Vec<String> = Vec::new();
    condition_names.push("import".to_owned());
    condition_names.push("require".to_owned());
    condition_names.push("node".to_owned());
    let mut main_fields: Vec<String> = Vec::new();
    main_fields.push("main".to_owned());
    main_fields.push("module".to_owned());
    main_fields.push("browser".to_owned());
    let mut roots: Vec<String> = Vec::new();
    roots.push(root.to_owned());
    let config_file = match config {
        Some(file) => Some(file.clone()),
        None => None,
    };
    assert(extensions.deep_view() =~= source_extensions());
    assert(condition_names.deep_view() =~= import_conditions());
    assert(main_fields.deep_view() =~= entry_fields());
    assert(roots.deep_view() =~= seq![root@]);
    ResolverSettings {
        extensions,
        condition_names,
        main_fields,
        roots,
        config_file,
        references: ProjectReferences::Auto,
    }
}

/// The directories in which a configuration file is looked for: those of
/// `dirs`, in order, up to and including the first that is the project root.
pub open spec fn search_dirs(dirs: Seq<Seq<char>>, root: Seq<char>) -> Seq<Seq<char>>
    decreases dirs.len(),
{
    if dirs.len() == 0 {
        Seq::empty()
    } else if path_equal(dirs[0], root) {
        seq![dirs[0]]
    } else {
        seq![dirs[0]] + search_dirs(dirs.drop_first(), root)
    }
}

/// The configuration files that may govern `file`, nearest first: one in each
/// directory from the one that holds the file upward, up to and including
/// the project root, or up to the root of the file system where the file
/// does not lie below the project root.
pub open spec fn config_candidates_of(file: Seq<char>, root: Seq<char>) -> Seq<Seq<char>> {
    search_dirs(directories_above(file), root).map_values(
        |dir: Seq<char>| path_join(dir, config_file_name()),
    )
}

/// Candidate `i` was found on disk.
pub open spec fn is_present(present: Seq<bool>, i: int) -> bool {
    0 <= i < present.len() && present[i]
}

/// The paths at which the configuration of `file` is looked for, nearest
/// first.
pub fn config_candidates(root: &str, file: &str) -> (candidates: Vec<String>)
    ensures
        candidates.deep_view() == config_candidates_of(file@, root@),
{
    let dirs = ancestors_of(file);
    let ghost above = directories_above(file@);
    let mut candidates: Vec<String> = Vec::new();
    let mut found: Ghost<Seq<Seq<char>>> = Ghost(Seq::empty());
    let mut i: usize = 1;
    if dirs.len() == 0 {
        assert(above =~= Seq::empty());
        assert(candidates.deep_view() =~= config_candidates_of(file@, root@));
        return candidates;
    }
    assert(above.skip(0) =~= above);
    while i < dirs.len()
        invariant
            1 <= i <= dirs.len(),
            above == dirs.deep_view().skip(1),
            above == directories_above(file@),
            found@ + search_dirs(above.skip(i - 1), root@) == search_dirs(above, root@),
            candidates.deep_view() == found@.map_values(
                |dir: Seq<char>| path_join(dir, config_file_name()),
            ),
        decreases dirs.len() - i,
    {
        let ghost rest = above.skip(i - 1);
        let ghost before = candidates.deep_view();
        let ghost prev = found@;
        let dir: &str = dirs[i].as_str();
        candidates.push(join_of(dir, "tsconfig.json"));
        proof {
            assert(rest[0] == dir@);
            assert(rest.drop_first() =~= above.skip(i as int));
            found@ = prev.push(dir@);
            assert(candidates.deep_view() =~= before.push(path_join(dir@, config_file_name())));
            assert(candidates.deep_view() =~= found@.map_values(
                |dir: Seq<char>| path_join(dir, config_file_name()),
            ));
        }
        if equal_paths(dir, root) {
            proof {
                assert(search_dirs(rest, root@) =~= seq![dir@]);
                assert(found@ =~= prev + search_dirs(rest, root@));
            }
            return candidates;
        }
        proof {
            assert(search_dirs(rest, root@) =~= seq![dir@] + search_dirs(
                above.skip(i as int),
                root@,
            ));
            assert(found@ + search_dirs(above.skip(i as int), root@) =~= prev + search_dirs(
                rest,
                root@,
            ));
        }
        i += 1;
    }
    proof {
        assert(above.skip(dirs.len() - 1) =~= Seq::empty());
        assert(found@ =~= found@ + search_dirs(above.skip(dirs.len() - 1), root@));
    }
    candidates
}

/// The nearest configuration file that exists: the first candidate that was
/// found on disk, where `present` tells of each candidate, by position,
/// whether it was found. A candidate that `present` does not reach counts as
/// not found.
pub fn nearest_config(candidates: &Vec<String>, present: &Vec<bool>) -> (config: Option<String>)
    ensures
        config matches Some(file) ==> exists|i: int|
            0 <= i < candidates.len() && #[trigger] is_present(present@, i) && file@
                == candidates[i]@ && forall|j: int| 0 <= j < i ==> !is_present(present@, j),
        config is None ==> forall|i: int| 0 <= i < candidates.len() ==> !is_present(present@, i),
{
    let mut i: usize = 0;
    while i < candidates.len()
        invariant
            i <= candidates.len(),
            forall|j: int| 0 <= j < i ==> !is_present(present@, j),
        decreases candidates.len() - i,
    {
        if i < present.len() && present[i] {
            assert(is_present(present@, i as int));
            return Some(candidates[i].clone());
        }
        i += 1;
    }
    None
}

/// The views of a list of cache keys.
pub open spec fn keys_view(keys: Seq<Option<String>>) -> Seq<Option<Seq<char>>> {
    keys.map_values(|k: Option<String>| optional_text(k))
}

/// The configuration that governs `file`, given which of its candidates
/// exist: the nearest candidate found on disk.
pub open spec fn governs(
    config: Option<Seq<char>>,
    file: Seq<char>,
    root: Seq<char>,
    present: Seq<bool>,
) -> bool {
    let candidates = config_candidates_of(file, root);
    match config {
        Some(path) => exists|i: int|
            0 <= i < candidates.len() && #[trigger] is_present(present, i) && path
                == candidates[i] && forall|j: int| 0 <= j < i ==> !is_present(present, j),
        None => forall|i: int| 0 <= i < candidates.len() ==> !is_present(present, i),
    }
}

/// The configuration that governs `file`, given which of its candidates
/// exist.
pub open spec fn governing_config(file: Seq<char>, root: Seq<char>, present: Seq<bool>) -> Option<
    Seq<char>,
> {
    choose|key: Option<Seq<char>>| governs(key, file, root, present)
}

/// One configuration governs a file, or none does: what governs it is
/// settled by which of its candidates exist.
pub proof fn lemma_governs_one(
    first: Option<Seq<char>>,
    second: Option<Seq<char>>,
    file: Seq<char>,
    root: Seq<char>,
    present: Seq<bool>,
)
    requires
        governs(first, file, root, present),
        governs(second, file, root, present),
    ensures
        first == second,
{
    let candidates = config_candidates_of(file, root);
    match (first, second) {
        (Some(a), Some(b)) => {
            let i = choose|i: int|
                0 <= i < candidates.len() && #[trigger] is_present(present, i) && a
                    == candidates[i] && forall|j: int| 0 <= j < i ==> !is_present(present, j);
            let k = choose|k: int|
                0 <= k < candidates.len() && #[trigger] is_present(present, k) && b
                    == candidates[k] && forall|j: int| 0 <= j < k ==> !is_present(present, j);
            if i < k {
                assert(!is_present(present, i));
            } else if k < i {
                assert(!is_present(present, k));
            }
        },
        (Some(a), None) => {
            let i = choose|i: int|
                0 <= i < candidates.len() && #[trigger] is_present(present, i) && a
                    == candidates[i] && forall|j: int| 0 <= j < i ==> !is_present(present, j);
            assert(!is_present(present, i));
        },
        (None, Some(b)) => {
            let k = choose|k: int|
                0 <= k < candidates.len() && #[trigger] is_present(present, k) && b
                    == candidates[k] && forall|j: int| 0 <= j < k ==> !is_present(present, j);
            assert(!is_present(present, k));
        },
        (None, None) => {},
    }
}

/// The keys of the cache after the resolver for `key` was asked for:
/// unchanged where it was cached already, else with `key` as the last.
pub open spec fn with_key(keys: Seq<Option<Seq<char>>>, key: Option<Seq<char>>) -> Seq<
    Option<Seq<char>>,
> {
    if keys.contains(key) {
        keys
    } else {
        keys.push(key)
    }
}

/// Which resolver serves a file: its place among the resolvers of the run,
/// and, where it is not made yet, the settings with which it is made.
#[derive(Debug)]
pub struct ResolverPick {
    /// The place of the resolver among the resolvers of the run.
    pub index: usize,
    /// The settings of the resolver, where the caller has to make it first.
    pub settings: Option<ResolverSettings>,
}

/// What `pick` says after the resolver for `key` was asked for in a cache
/// with the keys `before`: the place of the key, and the settings for it
/// where it is new.
pub open spec fn is_pick_of(
    pick: ResolverPick,
    before: Seq<Option<Seq<char>>>,
    root: Seq<char>,
    key: Option<Seq<char>>,
) -> bool {
    &&& pick.index < with_key(before, key).len()
    &&& with_key(before, key)[pick.index as int] == key
    &&& before.contains(key) ==> pick.settings is None
    &&& !before.contains(key) ==> pick.index == before.len() && (pick.settings matches Some(
        settings,
    ) && is_settings_for(settings, root, key) && all_dotted(settings.extensions.deep_view()))
}

/// The resolvers of a run, one for each configuration met so far, by the
/// configuration that each serves: the path of its configuration file, or
/// `None` for the resolver of the files that no configuration governs. The
/// caller keeps the resolvers themselves, in the same order.
pub struct ResolverCache {
    root: String,
    keys: Vec<Option<String>>,
}

impl ResolverCache {
    /// The project root.
    pub closed spec fn root(&self) -> Seq<char> {
        self.root@
    }

    /// The keys of the resolvers, in the order in which they were asked
    /// for.
    pub closed spec fn keys(&self) -> Seq<Option<Seq<char>>> {
        keys_view(self.keys@)
    }

    /// The cache is well formed: no key occurs twice.
    pub open spec fn wf(&self) -> bool {
        self.keys().no_duplicates()
    }

    /// An empty cache for the project at `root`.
    pub fn new(root: &str) -> (cache: ResolverCache)
        ensures
            cache.wf(),
            cache.root() == root@,
            cache.keys() == Seq::<Option<Seq<char>>>::empty(),
    {
        let cache = ResolverCache { root: root.to_owned(), keys: Vec::new() };
        assert(cache.keys() =~= Seq::<Option<Seq<char>>>::empty());
        cache
    }

    /// The number of resolvers of the run.
    pub fn len(&self) -> (count: usize)
        ensures
            count == self.keys().len(),
    {
        self.keys.len()
    }

    /// The paths at which the configuration of `file` is looked for, nearest
    /// first.
    pub fn config_candidates(&self, file: &str) -> (candidates: Vec<String>)
        ensures
            candidates.deep_view() == config_candidates_of(file@, self.root()),
    {
        config_candidates(self.root.as_str(), file)
    }

    /// The configuration file that governs `file`: the nearest one above it
    /// that exists, where `present` tells of each candidate, by position,
    /// whether it was found on disk.
    pub fn find_tsconfig_for_file(&self, file: &str, present: &Vec<bool>) -> (config: Option<
        String,
    >)
        ensures
            governs(optional_text(config), file@, self.root(), present@),
    {
        let candidates = self.config_candidates(file);
        let config = nearest_config(&candidates, present);
        proof {
            let all = config_candidates_of(file@, self.root());
            assert forall|i: int| 0 <= i < candidates.len() implies all[i] == candidates[i]@ by {}
        }
        config
    }

    /// The position of `key` among the keys, if it is cached.
    fn position(&self, key: &Option<String>) -> (found: Option<usize>)
        ensures
            found matches Some(i) ==> i < self.keys().len() && self.keys()[i as int]
                == optional_text(*key),
            found is None ==> !self.keys().contains(optional_text(*key)),
    {
        let mut i: usize = 0;
        while i < self.keys.len()
            invariant
                i <= self.keys.len(),
                forall|j: int| 0 <= j < i ==> self.keys()[j] != optional_text(*key),
            decreases self.keys.len() - i,
        {
            let same = match (&self.keys[i], key) {
                (Some(a), Some(b)) => *a == *b,
                (None, None) => true,
                _ => false,
            };
            assert(self.keys()[i as int] == optional_text(self.keys[i as int]));
            if same {
                return Some(i);
            }
            i += 1;
        }
        None
    }

    /// The resolver for the files that `config` governs: the one that the
    /// run has already, or a new one, which takes the next place and for
    /// which the settings are handed out.
    pub fn resolver_for(&mut self, config: &Option<String>) -> (pick: ResolverPick)
        requires
            old(self).wf(),
        ensures
            final(self).wf(),
            final(self).root() == old(self).root(),
            final(self).keys() == with_key(old(self).keys(), optional_text(*config)),
            is_pick_of(pick, old(self).keys(), old(self).root(), optional_text(*config)),
    {
        match self.position(config) {
            Some(index) => {
                assert(self.keys().contains(optional_text(*config)));
                ResolverPick { index, settings: None }
            },
            None => {
                let ghost before = self.keys();
                let settings = settings_for(self.root.as_str(), config);
                let key = match config {
                    Some(file) => Some(file.clone()),
                    None => None,
                };
                self.keys.push(key);
                proof {
                    assert(self.keys() =~= before.push(optional_text(*config)));
                    let keys = self.keys();
                    assert forall|i: int, j: int|
                        0 <= i < keys.len() && 0 <= j < keys.len() && i != j implies keys[i]
                        != keys[j] by {
                        if i < before.len() && j < before.len() {
                        } else if i < before.len() {
                            assert(before.contains(keys[i]));
                        } else {
                            assert(before.contains(keys[j]));
                        }
                    }
                }
                ResolverPick { index: self.keys.len() - 1, settings: Some(settings) }
            },
        }
    }

    /// The resolver for `file`, where `present` tells of each configuration
    /// candidate of `file`, by position, whether it was found on disk: the
    /// resolver of the configuration that governs the file.
    pub fn get_resolver_for_file(&mut self, file: &str, present: &Vec<bool>) -> (pick:
        ResolverPick)
        requires
            old(self).wf(),
        ensures
            final(self).wf(),
            final(self).root() == old(self).root(),
            final(self).keys() == with_key(
                old(self).keys(),
                governing_config(file@, old(self).root(), present@),
            ),
            is_pick_of(
                pick,
                old(self).keys(),
                old(self).root(),
                governing_config(file@, old(self).root(), present@),
            ),
    {
        let config = self.find_tsconfig_for_file(file, present);
        proof {
            lemma_governs_one(
                optional_text(config),
                governing_config(file@, self.root(), present@),
                file@,
                self.root(),
                present@,
            );
        }
        self.resolver_for(&config)
    }
}

} // verus!
