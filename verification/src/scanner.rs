//! The import scanner: finds import-like constructs in the text of a source
//! file, line by line, with the `regex` crate doing the matching.

use crate::text::{lines_of, split_lines};
use regex::Regex;
use vstd::prelude::*;

verus! {

/// A static import, with or without bindings: `import x from 'target'`,
/// `import 'target'`.
pub const STATIC_IMPORT: &'static str =
    r#"import\s+(?:(?:\{[^}]*\}|\*\s+as\s+\w+|\w+)(?:\s*,\s*(?:\{[^}]*\}|\*\s+as\s+\w+|\w+))*\s+from\s+)?['""]([^'""\s]+)['""]"#;

/// A CommonJS import: `require('target')`.
pub const REQUIRE_CALL: &'static str = r#"require\s*\(\s*['""]([^'""\s]+)['""]"#;

/// A dynamic import: `import('target')`.
pub const DYNAMIC_IMPORT: &'static str = r#"import\s*\(\s*['""]([^'""\s]+)['""]"#;

/// A re-export: `export * from 'target'`, `export { a } from 'target'`.
pub const RE_EXPORT: &'static str = r#"export\s+(?:\*|\{[^}]*\})\s+from\s+['""]([^'""\s]+)['""]"#;

/// Whether `regex::Regex::new` accepts a pattern.
pub uninterp spec fn regex_accepts(pattern: Seq<char>) -> bool;

/// For each match that `regex::Regex::captures_iter` finds of a pattern in a
/// line, from left to right: the text of the capture group with the number
/// `group`, or `None` where the pattern has no such group or the group took
/// no part in the match.
pub uninterp spec fn regex_groups(pattern: Seq<char>, group: nat, line: Seq<char>) -> Seq<
    Option<Seq<char>>,
>;

/// The capture group that holds the target in each of the import patterns.
pub const TARGET_GROUP: usize = 1;

/// For each match of a pattern in a line, from left to right: the target, or
/// `None` where the group of the target took no part in the match.
pub open spec fn regex_first_groups(pattern: Seq<char>, line: Seq<char>) -> Seq<
    Option<Seq<char>>,
> {
    regex_groups(pattern, TARGET_GROUP as nat, line)
}

/// The views of a list of optional strings.
pub open spec fn optional_texts(groups: Seq<Option<String>>) -> Seq<Option<Seq<char>>> {
    groups.map_values(
        |g: Option<String>|
            match g {
                Some(t) => Some(t@),
                None => None,
            },
    )
}

/// Calls `regex::Regex::new` and reports whether the pattern compiled.
/// Trusted: whether a pattern compiles depends on the pattern alone.
#[verifier::external_body]
fn pattern_compiles(pattern: &str) -> (ok: bool)
    ensures
        ok == regex_accepts(pattern@),
{
    Regex::new(pattern).is_ok()
}

/// `groups` holds, for each of `lines` by position, the targets of the
/// matches of `pattern` in that line.
pub open spec fn groups_agree(
    groups: Seq<Vec<Option<String>>>,
    pattern: Seq<char>,
    lines: Seq<Seq<char>>,
) -> bool {
    &&& groups.len() == lines.len()
    &&& forall|i: int|
        0 <= i < lines.len() ==> optional_texts((#[trigger] groups[i])@) == regex_first_groups(
            pattern,
            lines[i],
        )
}

/// Compiles `pattern` once and, for each of `lines` in turn, walks
/// `regex::Regex::captures_iter` over the line, taking `Captures::get(group)`
/// of every match. Trusted: the matches in a line, their order and their
/// groups depend on the pattern, the number of the group and that line
/// alone.
#[verifier::external_body]
fn groups_of(pattern: &str, group: usize, lines: &Vec<String>) -> (groups: Vec<
    Vec<Option<String>>,
>)
    requires
        regex_accepts(pattern@),
    ensures
        groups.len() == lines.len(),
        forall|i: int|
            0 <= i < lines.len() ==> optional_texts((#[trigger] groups[i])@) == regex_groups(
                pattern@,
                group as nat,
                lines[i]@,
            ),
{
    let regex = Regex::new(pattern).unwrap();
    let take = |c: regex::Captures| c.get(group).map(|m| m.as_str().to_string());
    lines.iter().map(|line| regex.captures_iter(line).map(take).collect()).collect()
}

/// One import-like construct found in a file: the target as written between
/// the quotes, and the line it stands on, counted from 1.
#[derive(Debug)]
pub struct RawImport {
    pub target: String,
    pub line_number: usize,
}

/// The mathematical value of a `RawImport`.
pub struct RawImportView {
    pub target: Seq<char>,
    pub line_number: nat,
}

impl View for RawImport {
    type V = RawImportView;

    open spec fn view(&self) -> RawImportView {
        RawImportView { target: self.target@, line_number: self.line_number as nat }
    }
}

/// The four patterns of the scanner, in the order in which each line is tried
/// against them.
pub open spec fn import_patterns() -> Seq<Seq<char>> {
    seq![STATIC_IMPORT@, REQUIRE_CALL@, DYNAMIC_IMPORT@, RE_EXPORT@]
}

/// The targets among the first groups of a pattern's matches: the groups that
/// took part, in match order, each with the number of the line.
pub open spec fn group_targets(groups: Seq<Option<Seq<char>>>, line_number: nat) -> Seq<
    RawImportView,
>
    decreases groups.len(),
{
    if groups.len() == 0 {
        Seq::empty()
    } else {
        let earlier = group_targets(groups.drop_last(), line_number);
        match groups.last() {
            Some(target) => earlier.push(RawImportView { target, line_number }),
            None => earlier,
        }
    }
}

/// What one line yields: the targets of the first pattern, then those of the
/// second, and so on.
pub open spec fn line_imports(patterns: Seq<Seq<char>>, line: Seq<char>, line_number: nat) -> Seq<
    RawImportView,
>
    decreases patterns.len(),
{
    if patterns.len() == 0 {
        Seq::empty()
    } else {
        line_imports(patterns.drop_last(), line, line_number) + group_targets(
            regex_first_groups(patterns.last(), line),
            line_number,
        )
    }
}

/// What a run of lines yields: the imports of each line in turn, the first
/// line being line 1.
pub open spec fn lines_imports(patterns: Seq<Seq<char>>, lines: Seq<Seq<char>>) -> Seq<
    RawImportView,
>
    decreases lines.len(),
{
    if lines.len() == 0 {
        Seq::empty()
    } else {
        lines_imports(patterns, lines.drop_last()) + line_imports(
            patterns,
            lines.last(),
            lines.len(),
        )
    }
}

/// What the scanner finds in a text.
pub open spec fn scan_result(patterns: Seq<Seq<char>>, content: Seq<char>) -> Seq<RawImportView> {
    lines_imports(patterns, lines_of(content))
}

/// The views of a list of raw imports.
pub open spec fn raw_imports_view(imports: Seq<RawImport>) -> Seq<RawImportView> {
    imports.map_values(|i: RawImport| i@)
}

/// Appends to `found` the targets among the first groups of one pattern's
/// matches on one line.
pub fn collect_targets(groups: &Vec<Option<String>>, line_number: usize, found: &mut Vec<RawImport>)
    ensures
        raw_imports_view(final(found)@) == raw_imports_view(old(found)@) + group_targets(
            optional_texts(groups@),
            line_number as nat,
        ),
{
    let ghost all = optional_texts(groups@);
    let ghost before = raw_imports_view(found@);
    let mut i: usize = 0;
    assert(all.take(0) =~= Seq::empty());
    while i < groups.len()
        invariant
            i <= groups.len(),
            all == optional_texts(groups@),
            raw_imports_view(found@) == before + group_targets(
                all.take(i as int),
                line_number as nat,
            ),
        decreases groups.len() - i,
    {
        let ghost head = all.take(i + 1);
        let ghost so_far = raw_imports_view(found@);
        assert(head.drop_last() =~= all.take(i as int));
        match &groups[i] {
            Some(target) => {
                let import = RawImport { target: target.clone(), line_number };
                assert(head.last() == Some(import@.target));
                found.push(import);
                assert(raw_imports_view(found@) =~= so_far.push(import@));
            },
            None => {
                assert(head.last() is None);
            },
        }
        i += 1;
    }
    assert(all.take(groups.len() as int) =~= all);
}

/// A scan pattern that the regex engine refused.
#[derive(Debug)]
pub struct ScanPatternError {
    pub pattern: String,
}

/// Every pattern of the list compiles.
pub open spec fn all_accepted(patterns: Seq<Seq<char>>) -> bool {
    forall|i: int| 0 <= i < patterns.len() ==> regex_accepts(#[trigger] patterns[i])
}

/// `pattern` is the first of `patterns` that does not compile.
pub open spec fn is_first_rejected(patterns: Seq<Seq<char>>, pattern: Seq<char>) -> bool {
    exists|i: int|
        0 <= i < patterns.len() && pattern == #[trigger] patterns[i] && !regex_accepts(patterns[i])
            && all_accepted(patterns.take(i))
}

/// The import scanner: a list of patterns, each of which is known to compile.
pub struct ImportScanner {
    patterns: Vec<String>,
}

impl ImportScanner {
    #[verifier::type_invariant]
    spec fn patterns_compile(self) -> bool {
        all_accepted(self.patterns.deep_view())
    }

    /// The patterns of the scanner, in the order in which each line is tried
    /// against them.
    pub closed spec fn patterns(&self) -> Seq<Seq<char>> {
        self.patterns.deep_view()
    }

    /// A scanner over the given patterns. Fails on the first pattern that
    /// does not compile, and names it.
    pub fn with_patterns(patterns: Vec<String>) -> (made: Result<ImportScanner, ScanPatternError>)
        ensures
            made is Ok <==> all_accepted(patterns.deep_view()),
            made matches Ok(scanner) ==> scanner.patterns() == patterns.deep_view(),
            made matches Err(e) ==> is_first_rejected(patterns.deep_view(), e.pattern@),
    {
        let mut i: usize = 0;
        while i < patterns.len()
            invariant
                i <= patterns.len(),
                all_accepted(patterns.deep_view().take(i as int)),
            decreases patterns.len() - i,
        {
            if !pattern_compiles(patterns[i].as_str()) {
                assert(patterns.deep_view()[i as int] == patterns[i as int]@);
                return Err(ScanPatternError { pattern: patterns[i].clone() });
            }
            assert(patterns.deep_view()[i as int] == patterns[i as int]@);
            assert forall|k: int| 0 <= k < i + 1 implies regex_accepts(
                #[trigger] patterns.deep_view().take(i + 1)[k],
            ) by {
                if k < i {
                    assert(patterns.deep_view().take(i as int)[k] == patterns.deep_view()[k]);
                }
            }
            i += 1;
        }
        assert(patterns.deep_view().take(patterns.len() as int) =~= patterns.deep_view());
        Ok(ImportScanner { patterns })
    }

    /// The scanner over the four import patterns: static import, `require`,
    /// dynamic import and re-export.
    pub fn new() -> (made: Result<ImportScanner, ScanPatternError>)
        ensures
            made is Ok <==> all_accepted(import_patterns()),
            made matches Ok(scanner) ==> scanner.patterns() == import_patterns(),
            made matches Err(e) ==> is_first_rejected(import_patterns(), e.pattern@),
    {
        let mut patterns: Vec<String> = Vec::new();
        patterns.push(STATIC_IMPORT.to_owned());
        patterns.push(REQUIRE_CALL.to_owned());
        patterns.push(DYNAMIC_IMPORT.to_owned());
        patterns.push(RE_EXPORT.to_owned());
        assert(patterns.deep_view() =~= import_patterns());
        ImportScanner::with_patterns(patterns)
    }

    /// The first groups of the matches of each pattern in each of `lines`: by
    /// pattern, then by line.
    fn match_lines(&self, lines: &Vec<String>) -> (table: Vec<Vec<Vec<Option<String>>>>)
        ensures
            table.len() == self.patterns().len(),
            forall|p: int|
                0 <= p < table.len() ==> groups_agree(
                    (#[trigger] table[p])@,
                    self.patterns()[p],
                    lines.deep_view(),
                ),
    {
        proof {
            use_type_invariant(self);
        }
        let mut table: Vec<Vec<Vec<Option<String>>>> = Vec::new();
        let mut p: usize = 0;
        while p < self.patterns.len()
            invariant
                p <= self.patterns.len(),
                all_accepted(self.patterns.deep_view()),
                table.len() == p,
                forall|q: int|
                    0 <= q < p ==> groups_agree(
                        (#[trigger] table[q])@,
                        self.patterns.deep_view()[q],
                        lines.deep_view(),
                    ),
            decreases self.patterns.len() - p,
        {
            assert(self.patterns.deep_view()[p as int] == self.patterns[p as int]@);
            let groups = groups_of(self.patterns[p].as_str(), TARGET_GROUP, lines);
            proof {
                assert forall|i: int| 0 <= i < lines.len() implies optional_texts(
                    (#[trigger] groups@[i])@,
                ) == regex_first_groups(self.patterns[p as int]@, lines.deep_view()[i]) by {
                    assert(lines.deep_view()[i] == lines[i]@);
                }
            }
            table.push(groups);
            p += 1;
        }
        table
    }

    /// Appends to `found` what line `l` of `lines` yields, from the table of
    /// its matches.
    fn collect_line(
        &self,
        table: &Vec<Vec<Vec<Option<String>>>>,
        lines: &Vec<String>,
        l: usize,
        line_number: usize,
        found: &mut Vec<RawImport>,
    )
        requires
            l < lines.len(),
            table.len() == self.patterns().len(),
            forall|p: int|
                0 <= p < table.len() ==> groups_agree(
                    (#[trigger] table[p])@,
                    self.patterns()[p],
                    lines.deep_view(),
                ),
        ensures
            raw_imports_view(final(found)@) == raw_imports_view(old(found)@) + line_imports(
                self.patterns(),
                lines[l as int]@,
                line_number as nat,
            ),
    {
        let ghost before = raw_imports_view(found@);
        let ghost patterns = self.patterns.deep_view();
        let ghost line = lines[l as int]@;
        let mut p: usize = 0;
        assert(patterns.take(0) =~= Seq::empty());
        while p < table.len()
            invariant
                p <= table.len(),
                l < lines.len(),
                line == lines[l as int]@,
                patterns == self.patterns(),
                table.len() == patterns.len(),
                forall|q: int|
                    0 <= q < table.len() ==> groups_agree(
                        (#[trigger] table[q])@,
                        patterns[q],
                        lines.deep_view(),
                    ),
                raw_imports_view(found@) == before + line_imports(
                    patterns.take(p as int),
                    line,
                    line_number as nat,
                ),
            decreases table.len() - p,
        {
            proof {
                let head = patterns.take(p + 1);
                assert(head.drop_last() =~= patterns.take(p as int));
                assert(head.last() == patterns[p as int]);
                assert(groups_agree(table[p as int]@, patterns[p as int], lines.deep_view()));
                assert(lines.deep_view()[l as int] == line);
            }
            collect_targets(&table[p][l], line_number, found);
            p += 1;
        }
        assert(patterns.take(table.len() as int) =~= patterns);
    }

    /// Appends to `found` what one line yields: for each pattern in turn, the
    /// targets of its matches from left to right.
    pub fn scan_line(&self, line: &str, line_number: usize, found: &mut Vec<RawImport>)
        ensures
            raw_imports_view(final(found)@) == raw_imports_view(old(found)@) + line_imports(
                self.patterns(),
                line@,
                line_number as nat,
            ),
    {
        let mut lines: Vec<String> = Vec::new();
        lines.push(line.to_owned());
        let table = self.match_lines(&lines);
        self.collect_line(&table, &lines, 0, line_number, found);
    }

    /// Scans the text of a file: every import-like construct with the number
    /// of its line, in the order of the lines, and within a line in the order
    /// of the patterns and then from left to right. Each pattern is compiled
    /// once for the file.
    pub fn scan(&self, content: &str) -> (found: Vec<RawImport>)
        ensures
            raw_imports_view(found@) == scan_result(self.patterns(), content@),
    {
        let lines = split_lines(content);
        let table = self.match_lines(&lines);
        let ghost all = lines.deep_view();
        let mut found: Vec<RawImport> = Vec::new();
        let mut l: usize = 0;
        assert(all.take(0) =~= Seq::empty());
        assert(raw_imports_view(found@) =~= Seq::empty());
        while l < lines.len()
            invariant
                l <= lines.len(),
                all == lines.deep_view(),
                table.len() == self.patterns().len(),
                forall|p: int|
                    0 <= p < table.len() ==> groups_agree(
                        (#[trigger] table[p])@,
                        self.patterns()[p],
                        lines.deep_view(),
                    ),
                raw_imports_view(found@) == lines_imports(self.patterns(), all.take(l as int)),
            decreases lines.len() - l,
        {
            proof {
                let head = all.take(l + 1);
                assert(head.drop_last() =~= all.take(l as int));
                assert(head.last() == lines[l as int]@);
            }
            self.collect_line(&table, &lines, l, l + 1, &mut found);
            l += 1;
        }
        assert(all.take(lines.len() as int) =~= all);
        found
    }
}

} // verus!
