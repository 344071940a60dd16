//! The whole walk at once, for a caller that holds a project in memory: the
//! text of its files and what each import resolves to. The walk goes from
//! the entry files until no file waits.

use crate::analyzer::{DependencyAnalyzer, FileState, VisitOutcome};
use crate::model::{resolved_imports_view, ResolvedImport, ResolvedImportView};
use crate::paths::{is_supported_path, optional_text};
use crate::resolver::governing_config;
use crate::scanner::{raw_imports_view, scan_result, RawImport, RawImportView};
use crate::walk::{
    initial_state, is_accounted, is_import_target, is_settled, is_settled_but, keys_after,
    lemma_initial_state, lemma_invariant_of_parts, lemma_pending_is_of_queue,
    lemma_pending_shrinks, lemma_taking_keeps_accounted, lemma_taking_keeps_settled,
    lemma_target_stays, lemma_unscanned_shrinks, lemma_visit_goes_on, lemma_visit_keeps_accounted,
    lemma_visit_keeps_invariant, lemma_visit_logs, lemma_visit_marks_file, lemma_visit_pushes,
    lemma_visit_settles, lemma_with_key, pending, records_of, room_for, state_invariant,
    supported_entries, unscanned, unsupported_entries, visit_result, AnalyzerView,
};
use vstd::prelude::*;

verus! {

/// What is known of a file of the project.
#[derive(Debug)]
pub enum FileContent {
    /// The file does not exist.
    Missing,
    /// The file exists and cannot be read.
    Unreadable,
    /// The file can be read.
    Loaded {
        /// The text of the file.
        content: String,
        /// For each configuration candidate of the file, by position,
        /// whether it exists.
        configs_present: Vec<bool>,
    },
}

/// A file of the project as its caller knows it.
#[derive(Debug)]
pub struct SourceFile {
    /// The path of the file.
    pub path: String,
    /// What is known of the file.
    pub state: FileContent,
}

/// What an import of a file resolves to, as its caller knows it.
#[derive(Debug)]
pub struct Resolution {
    /// The file that holds the import.
    pub file: String,
    /// The target as written in the import.
    pub target: String,
    /// The file that the target resolves to, or `None` where it does not
    /// resolve.
    pub resolved: Option<String>,
}

/// What a walk met and could not use.
#[derive(Debug, PartialEq, Eq)]
pub enum Diagnostic {
    /// An entry file that is no source file; it was skipped.
    UnsupportedEntry(String),
    /// A file that does not exist; it was skipped.
    MissingFile(String),
    /// A file that could not be read; it counts as scanned and has no
    /// imports.
    UnreadableFile(String),
}

/// The walk stopped because the graph cannot take the nodes and edges of a
/// file.
#[derive(Debug)]
pub struct GraphFullError {
    /// The file whose visit found the graph full.
    pub file: String,
}

/// The paths of the known files, in their order.
pub open spec fn known_paths(files: Seq<SourceFile>) -> Seq<Seq<char>> {
    files.map_values(|f: SourceFile| f.path@)
}

/// Entry `i` of `files` is the one that speaks for `path`: the first with
/// that path.
pub open spec fn is_entry_of(files: Seq<SourceFile>, path: Seq<char>, i: int) -> bool {
    &&& 0 <= i < files.len()
    &&& files[i].path@ == path
    &&& forall|j: int| 0 <= j < i ==> (#[trigger] files[j]).path@ != path
}

/// What is known of `path`: the state of the entry that speaks for it, and
/// `Missing` where it has none.
pub open spec fn known_state(files: Seq<SourceFile>, path: Seq<char>) -> FileContent {
    if exists|i: int| is_entry_of(files, path, i) {
        files[choose|i: int| is_entry_of(files, path, i)].state
    } else {
        FileContent::Missing
    }
}

/// Entry `i` of `table` is the one that speaks for the import of `target` in
/// `file`: the first for that file and target.
pub open spec fn is_answer_of(
    table: Seq<Resolution>,
    file: Seq<char>,
    target: Seq<char>,
    i: int,
) -> bool {
    &&& 0 <= i < table.len()
    &&& table[i].file@ == file && table[i].target@ == target
    &&& forall|j: int|
        0 <= j < i ==> !((#[trigger] table[j]).file@ == file && table[j].target@ == target)
}

/// What the import of `target` in `file` resolves to: what the entry that
/// speaks for it says, and nothing where it has none.
pub open spec fn known_answer(table: Seq<Resolution>, file: Seq<char>, target: Seq<char>) -> Option<
    Seq<char>,
> {
    if exists|i: int| is_answer_of(table, file, target, i) {
        optional_text(table[choose|i: int| is_answer_of(table, file, target, i)].resolved)
    } else {
        None
    }
}

/// The imports `found` in `file`, each with what it resolves to.
pub open spec fn known_answers(
    table: Seq<Resolution>,
    file: Seq<char>,
    found: Seq<RawImportView>,
) -> Seq<ResolvedImportView> {
    found.map_values(
        |import: RawImportView|
            ResolvedImportView {
                target: import.target,
                line_number: import.line_number,
                resolved: known_answer(table, file, import.target),
            },
    )
}

/// `path` is a known file that exists: its entry does not say that it is
/// missing.
pub open spec fn can_be_scanned(files: Seq<SourceFile>, path: Seq<char>) -> bool {
    exists|i: int| is_entry_of(files, path, i) && !(files[i].state is Missing)
}

/// `path` is a known file that exists and cannot be read.
pub open spec fn is_unreadable(files: Seq<SourceFile>, path: Seq<char>) -> bool {
    exists|i: int| is_entry_of(files, path, i) && files[i].state is Unreadable
}

/// The known files that exist.
pub open spec fn scannable_files(files: Seq<SourceFile>) -> Set<Seq<char>> {
    Set::new(|path: Seq<char>| can_be_scanned(files, path))
}

/// `path` is done with: it was scanned, or it is no known file that exists.
pub open spec fn is_walked(state: AnalyzerView, files: Seq<SourceFile>, path: Seq<char>) -> bool {
    state.visited.contains(path) || !can_be_scanned(files, path)
}

/// Every file that was scanned before is scanned after.
pub open spec fn keeps_scanned(before: AnalyzerView, after: AnalyzerView) -> bool {
    forall|f: Seq<char>| before.visited.contains(f) ==> #[trigger] after.visited.contains(f)
}

/// Every file that is scanned after was scanned before or is a known file
/// that exists.
pub open spec fn scans_known(
    before: AnalyzerView,
    after: AnalyzerView,
    files: Seq<SourceFile>,
) -> bool {
    forall|f: Seq<char>| #[trigger]
        after.visited.contains(f) ==> before.visited.contains(f) || can_be_scanned(files, f)
}

/// Every entry that is a source file is accounted for.
pub open spec fn entries_accounted(
    state: AnalyzerView,
    files: Seq<SourceFile>,
    entries: Seq<Seq<char>>,
) -> bool {
    forall|i: int|
        0 <= i < entries.len() && is_supported_path(entries[i]) ==> is_accounted(
            state,
            scannable_files(files),
            #[trigger] entries[i],
        )
}

/// What a diagnostic says is so.
pub open spec fn diagnostic_holds(
    diagnostic: Diagnostic,
    entries: Seq<Seq<char>>,
    files: Seq<SourceFile>,
) -> bool {
    match diagnostic {
        Diagnostic::UnsupportedEntry(path) => entries.contains(path@) && !is_supported_path(path@),
        Diagnostic::MissingFile(path) => !can_be_scanned(files, path@),
        Diagnostic::UnreadableFile(path) => is_unreadable(files, path@),
    }
}

/// Every diagnostic of the list holds.
pub open spec fn diagnostics_hold(
    diagnostics: Seq<Diagnostic>,
    entries: Seq<Seq<char>>,
    files: Seq<SourceFile>,
) -> bool {
    forall|k: int|
        0 <= k < diagnostics.len() ==> diagnostic_holds(#[trigger] diagnostics[k], entries, files)
}

/// The mathematical value of a `Diagnostic`.
pub enum DiagnosticView {
    UnsupportedEntry(Seq<char>),
    MissingFile(Seq<char>),
    UnreadableFile(Seq<char>),
}

impl View for Diagnostic {
    type V = DiagnosticView;

    open spec fn view(&self) -> DiagnosticView {
        match self {
            Diagnostic::UnsupportedEntry(path) => DiagnosticView::UnsupportedEntry(path@),
            Diagnostic::MissingFile(path) => DiagnosticView::MissingFile(path@),
            Diagnostic::UnreadableFile(path) => DiagnosticView::UnreadableFile(path@),
        }
    }
}

/// The views of a list of diagnostics.
pub open spec fn diagnostics_view(diagnostics: Seq<Diagnostic>) -> Seq<DiagnosticView> {
    diagnostics.map_values(|d: Diagnostic| d@)
}

/// How far a walk has come.
pub struct Progress {
    /// The state of the walk.
    pub state: AnalyzerView,
    /// What the walk met so far and could not use, in the order in which it
    /// met it.
    pub diagnostics: Seq<DiagnosticView>,
    /// The file at which the walk stopped because the graph has no room for
    /// it, if it stopped.
    pub stopped: Option<Seq<char>>,
    /// Whether every round so far had a file to take.
    pub sound: bool,
}

/// A walk before its first round: the entries that are source files wait in
/// the queue behind what waited there, and the others are reported, in their
/// order.
pub open spec fn first_progress(state: AnalyzerView, entries: Seq<Seq<char>>) -> Progress {
    Progress {
        state: AnalyzerView { queue: state.queue + supported_entries(entries), ..state },
        diagnostics: unsupported_entries(entries).map_values(
            |path: Seq<char>| DiagnosticView::UnsupportedEntry(path),
        ),
        stopped: None,
        sound: true,
    }
}

/// One round of a walk: the first file of the queue that was not scanned is
/// taken, with the files before it, and visited with what is known of it. A
/// missing file is reported and left alone. A file that cannot be read is
/// reported and counts as scanned. For a file that can be read, the resolver
/// of the configuration that governs it is asked for where imports are
/// found in it, and the file is visited with `resolved`, its imports with
/// what each resolves to. The walk stops at a file for which the graph has
/// no room.
pub open spec fn next_progress(
    progress: Progress,
    patterns: Seq<Seq<char>>,
    files: Seq<SourceFile>,
    resolved: Seq<ResolvedImportView>,
) -> Progress {
    let waiting = pending(progress.state.queue, progress.state.visited);
    if !progress.sound || progress.stopped is Some || waiting.len() == 0 {
        Progress { sound: false, ..progress }
    } else {
        let file = waiting[0];
        let taken = AnalyzerView { queue: waiting.drop_first(), ..progress.state };
        match known_state(files, file) {
            FileContent::Missing => Progress {
                state: taken,
                diagnostics: progress.diagnostics.push(DiagnosticView::MissingFile(file)),
                ..progress
            },
            FileContent::Unreadable => if room_for(taken.graph, 0) {
                Progress {
                    state: visit_result(taken, file, Seq::empty()),
                    diagnostics: progress.diagnostics.push(DiagnosticView::UnreadableFile(file)),
                    ..progress
                }
            } else {
                Progress { state: taken, stopped: Some(file), ..progress }
            },
            FileContent::Loaded { content, configs_present } => {
                let found = scan_result(patterns, content@);
                let asked = AnalyzerView {
                    cache_keys: keys_after(taken, file, found, configs_present@),
                    ..taken
                };
                if room_for(taken.graph, resolved.len()) {
                    Progress { state: visit_result(asked, file, resolved), ..progress }
                } else {
                    Progress { state: asked, stopped: Some(file), ..progress }
                }
            },
        }
    }
}

/// What the file that the next round takes resolves its imports to, by the
/// table: the imports that the scan finds in its text, each with its answer.
pub open spec fn round_answers(
    progress: Progress,
    patterns: Seq<Seq<char>>,
    files: Seq<SourceFile>,
    table: Seq<Resolution>,
) -> Seq<ResolvedImportView> {
    let waiting = pending(progress.state.queue, progress.state.visited);
    if waiting.len() == 0 {
        Seq::empty()
    } else {
        match known_state(files, waiting[0]) {
            FileContent::Loaded { content, .. } => known_answers(
                table,
                waiting[0],
                scan_result(patterns, content@),
            ),
            _ => Seq::empty(),
        }
    }
}

/// A walk after `rounds` rounds.
pub open spec fn progress_after(
    start: Progress,
    patterns: Seq<Seq<char>>,
    files: Seq<SourceFile>,
    table: Seq<Resolution>,
    rounds: nat,
) -> Progress
    decreases rounds,
{
    if rounds == 0 {
        start
    } else {
        let earlier = progress_after(start, patterns, files, table, (rounds - 1) as nat);
        next_progress(earlier, patterns, files, round_answers(earlier, patterns, files, table))
    }
}

/// How a walk ended, as mathematics: with its diagnostics, or with the file
/// at which it stopped.
pub open spec fn ending(ended: Result<Vec<Diagnostic>, GraphFullError>) -> Result<
    Seq<DiagnosticView>,
    Seq<char>,
> {
    match ended {
        Ok(diagnostics) => Ok(diagnostics_view(diagnostics@)),
        Err(e) => Err(e.file@),
    }
}

/// `after` and `ended` are where the walk from `before` over `entries` ends:
/// after `rounds` rounds, each of which had a file to take, no file waits or
/// the graph is full.
pub open spec fn is_walk(
    before: AnalyzerView,
    patterns: Seq<Seq<char>>,
    entries: Seq<Seq<char>>,
    files: Seq<SourceFile>,
    table: Seq<Resolution>,
    rounds: nat,
    after: AnalyzerView,
    ended: Result<Seq<DiagnosticView>, Seq<char>>,
) -> bool {
    let last = progress_after(first_progress(before, entries), patterns, files, table, rounds);
    let waiting = pending(last.state.queue, last.state.visited);
    &&& last.sound
    &&& match ended {
        Ok(diagnostics) => {
            &&& last.stopped is None
            &&& waiting.len() == 0
            &&& after == (AnalyzerView { queue: waiting, ..last.state })
            &&& diagnostics == last.diagnostics
        },
        Err(file) => last.stopped == Some(file) && after == last.state,
    }
}

/// A walk that has no file to take, or has stopped, goes no further: every
/// later round is unsound.
pub proof fn lemma_walk_is_over(
    start: Progress,
    patterns: Seq<Seq<char>>,
    files: Seq<SourceFile>,
    table: Seq<Resolution>,
    rounds: nat,
    later: nat,
)
    requires
        rounds < later,
        ({
            let last = progress_after(start, patterns, files, table, rounds);
            !last.sound || last.stopped is Some || pending(
                last.state.queue,
                last.state.visited,
            ).len() == 0
        }),
    ensures
        !progress_after(start, patterns, files, table, later).sound,
    decreases later,
{
    if later - 1 > rounds {
        lemma_walk_is_over(start, patterns, files, table, rounds, (later - 1) as nat);
    }
}

/// A walk is settled by where it starts and what is known of the project:
/// two walks from the same state over the same entries, files and
/// resolutions take the same number of rounds, end in the same state and
/// give the same diagnostics.
pub proof fn lemma_walks_agree(
    before: AnalyzerView,
    patterns: Seq<Seq<char>>,
    entries: Seq<Seq<char>>,
    files: Seq<SourceFile>,
    table: Seq<Resolution>,
    first_rounds: nat,
    first: AnalyzerView,
    first_ended: Result<Seq<DiagnosticView>, Seq<char>>,
    second_rounds: nat,
    second: AnalyzerView,
    second_ended: Result<Seq<DiagnosticView>, Seq<char>>,
)
    requires
        is_walk(before, patterns, entries, files, table, first_rounds, first, first_ended),
        is_walk(before, patterns, entries, files, table, second_rounds, second, second_ended),
    ensures
        first_rounds == second_rounds,
        first == second,
        first_ended == second_ended,
{
    let start = first_progress(before, entries);
    if first_rounds < second_rounds {
        lemma_walk_is_over(start, patterns, files, table, first_rounds, second_rounds);
    } else if second_rounds < first_rounds {
        lemma_walk_is_over(start, patterns, files, table, second_rounds, first_rounds);
    }
}

/// What a walk reports of the files of a queue when none of them can be
/// scanned: each file that was not scanned before as missing, in the order of
/// the queue, as often as it stands there.
pub open spec fn missing_reports(queue: Seq<Seq<char>>, visited: Seq<Seq<char>>) -> Seq<
    DiagnosticView,
>
    decreases queue.len(),
{
    if queue.len() == 0 {
        Seq::empty()
    } else if visited.contains(queue[0]) {
        missing_reports(queue.drop_first(), visited)
    } else {
        seq![DiagnosticView::MissingFile(queue[0])] + missing_reports(queue.drop_first(), visited)
    }
}

/// Every file of the queue was scanned or is known to be missing.
pub open spec fn nothing_to_scan(
    queue: Seq<Seq<char>>,
    visited: Seq<Seq<char>>,
    files: Seq<SourceFile>,
) -> bool {
    forall|i: int|
        0 <= i < queue.len() ==> visited.contains(#[trigger] queue[i]) || known_state(
            files,
            queue[i],
        ) is Missing
}

/// The scanned files at the front of a queue add nothing to what is
/// reported, and the first file behind them is reported first.
pub proof fn lemma_missing_reports(queue: Seq<Seq<char>>, visited: Seq<Seq<char>>)
    ensures
        missing_reports(queue, visited) == missing_reports(pending(queue, visited), visited),
        pending(queue, visited).len() > 0 ==> missing_reports(queue, visited) == seq![
            DiagnosticView::MissingFile(pending(queue, visited)[0]),
        ] + missing_reports(pending(queue, visited).drop_first(), visited),
        pending(queue, visited).len() == 0 ==> missing_reports(queue, visited)
            == Seq::<DiagnosticView>::empty(),
        forall|i: int|
            0 <= i < pending(queue, visited).len() ==> queue.contains(
                #[trigger] pending(queue, visited)[i],
            ),
    decreases queue.len(),
{
    if queue.len() > 0 && visited.contains(queue[0]) {
        lemma_missing_reports(queue.drop_first(), visited);
        let rest = pending(queue.drop_first(), visited);
        assert forall|i: int| 0 <= i < rest.len() implies queue.contains(#[trigger] rest[i]) by {
            let at = queue.drop_first().index_of(rest[i]);
            assert(queue[at + 1] == rest[i]);
        }
    } else if queue.len() > 0 {
        lemma_pending_shrinks(queue, visited);
        assert forall|i: int| 0 <= i < queue.len() implies queue.contains(#[trigger] queue[i]) by {}
    }
}

/// As long as no file of the queue can be scanned, a walk changes nothing
/// but the queue, and reports the files that it takes as missing.
pub proof fn lemma_progress_over_missing_files(
    start: Progress,
    patterns: Seq<Seq<char>>,
    files: Seq<SourceFile>,
    table: Seq<Resolution>,
    rounds: nat,
)
    requires
        start.sound,
        start.stopped is None,
        nothing_to_scan(start.state.queue, start.state.visited, files),
        progress_after(start, patterns, files, table, rounds).sound,
    ensures
        ({
            let last = progress_after(start, patterns, files, table, rounds);
            &&& last.stopped is None
            &&& last.state == (AnalyzerView { queue: last.state.queue, ..start.state })
            &&& nothing_to_scan(last.state.queue, start.state.visited, files)
            &&& last.diagnostics + missing_reports(last.state.queue, start.state.visited)
                == start.diagnostics + missing_reports(start.state.queue, start.state.visited)
        }),
    decreases rounds,
{
    let visited = start.state.visited;
    if rounds > 0 {
        let earlier = progress_after(start, patterns, files, table, (rounds - 1) as nat);
        lemma_progress_over_missing_files(start, patterns, files, table, (rounds - 1) as nat);
        let last = next_progress(
            earlier,
            patterns,
            files,
            round_answers(earlier, patterns, files, table),
        );
        let waiting = pending(earlier.state.queue, visited);
        lemma_missing_reports(earlier.state.queue, visited);
        let file = waiting[0];
        assert(earlier.state.queue.contains(file));
        let at = earlier.state.queue.index_of(file);
        assert(visited.contains(earlier.state.queue[at]) || known_state(
            files,
            earlier.state.queue[at],
        ) is Missing);
        lemma_pending_shrinks(earlier.state.queue, visited);
        assert(known_state(files, file) is Missing);
        assert forall|i: int| 0 <= i < last.state.queue.len() implies visited.contains(
            #[trigger] last.state.queue[i],
        ) || known_state(files, last.state.queue[i]) is Missing by {
            assert(last.state.queue[i] == waiting[i + 1]);
            assert(earlier.state.queue.contains(waiting[i + 1]));
            let k = earlier.state.queue.index_of(waiting[i + 1]);
            assert(visited.contains(earlier.state.queue[k]) || known_state(
                files,
                earlier.state.queue[k],
            ) is Missing);
        }
        assert(last.diagnostics + missing_reports(last.state.queue, visited)
            =~= earlier.diagnostics + missing_reports(earlier.state.queue, visited));
    } else {
        assert(start.state == (AnalyzerView { queue: start.state.queue, ..start.state }));
    }
}

/// A walk over entries none of which can be scanned scans nothing: it ends
/// with nothing in the queue and everything else as it was, and it reports
/// the entries that are no source files, and then each file that waited and
/// was not scanned before as missing.
pub proof fn lemma_walk_over_missing_files(
    before: AnalyzerView,
    patterns: Seq<Seq<char>>,
    entries: Seq<Seq<char>>,
    files: Seq<SourceFile>,
    table: Seq<Resolution>,
    rounds: nat,
    after: AnalyzerView,
    ended: Result<Seq<DiagnosticView>, Seq<char>>,
)
    requires
        is_walk(before, patterns, entries, files, table, rounds, after, ended),
        nothing_to_scan(first_progress(before, entries).state.queue, before.visited, files),
    ensures
        after == (AnalyzerView { queue: Seq::empty(), ..before }),
        ended == Ok::<Seq<DiagnosticView>, Seq<char>>(
            first_progress(before, entries).diagnostics + missing_reports(
                first_progress(before, entries).state.queue,
                before.visited,
            ),
        ),
{
    let first = first_progress(before, entries);
    lemma_progress_over_missing_files(first, patterns, files, table, rounds);
    let last = progress_after(first, patterns, files, table, rounds);
    lemma_missing_reports(last.state.queue, before.visited);
    assert(pending(last.state.queue, before.visited) =~= Seq::<Seq<char>>::empty());
    assert(last.diagnostics + Seq::<DiagnosticView>::empty() =~= last.diagnostics);
}

/// `path` was reached: it was scanned or waited before the walk, or it is an
/// entry that is a source file, or some import leads to it.
pub open spec fn is_reached(
    before: AnalyzerView,
    entries: Seq<Seq<char>>,
    state: AnalyzerView,
    path: Seq<char>,
) -> bool {
    before.visited.contains(path) || before.queue.contains(path) || supported_entries(
        entries,
    ).contains(path) || is_import_target(state, path)
}

/// Every file that was scanned, and every file that waits, was reached.
pub open spec fn all_reached(
    before: AnalyzerView,
    entries: Seq<Seq<char>>,
    state: AnalyzerView,
) -> bool {
    &&& forall|i: int|
        0 <= i < state.visited.len() ==> is_reached(
            before,
            entries,
            state,
            #[trigger] state.visited[i],
        )
    &&& forall|i: int|
        0 <= i < state.queue.len() ==> is_reached(before, entries, state, #[trigger] state.queue[i])
}

/// The visit of a file that was reached keeps every scanned and every
/// waiting file reached.
pub proof fn lemma_visit_reaches(
    before: AnalyzerView,
    entries: Seq<Seq<char>>,
    taken: AnalyzerView,
    file: Seq<char>,
    imports: Seq<ResolvedImportView>,
)
    requires
        state_invariant(taken),
        !taken.visited.contains(file),
        all_reached(before, entries, taken),
        is_reached(before, entries, taken, file),
    ensures
        state_invariant(visit_result(taken, file, imports)),
        all_reached(before, entries, visit_result(taken, file, imports)),
{
    let after = visit_result(taken, file, imports);
    lemma_visit_keeps_invariant(taken, file, imports);
    lemma_visit_goes_on(taken, file, imports);
    lemma_visit_marks_file(taken, file, imports);
    assert forall|i: int| 0 <= i < after.visited.len() implies is_reached(
        before,
        entries,
        after,
        #[trigger] after.visited[i],
    ) by {
        let path = after.visited[i];
        let old_path = if i < taken.visited.len() {
            taken.visited[i]
        } else {
            file
        };
        assert(path == old_path);
        assert(is_reached(before, entries, taken, path));
        if is_import_target(taken, path) {
            lemma_target_stays(taken, after, path);
        }
    }
    assert forall|i: int| 0 <= i < after.queue.len() implies is_reached(
        before,
        entries,
        after,
        #[trigger] after.queue[i],
    ) by {
        if i < taken.queue.len() {
            let path = taken.queue[i];
            assert(after.queue[i] == path);
            assert(is_reached(before, entries, taken, path));
            if is_import_target(taken, path) {
                lemma_target_stays(taken, after, path);
            }
        }
    }
}

/// At every round of a walk, the state meets the invariant of the walk, and
/// every file that was scanned or waits was reached.
pub proof fn lemma_progress_reaches(
    before: AnalyzerView,
    patterns: Seq<Seq<char>>,
    entries: Seq<Seq<char>>,
    files: Seq<SourceFile>,
    table: Seq<Resolution>,
    rounds: nat,
)
    requires
        state_invariant(before),
        progress_after(first_progress(before, entries), patterns, files, table, rounds).sound,
    ensures
        ({
            let last = progress_after(first_progress(before, entries), patterns, files, table, rounds);
            state_invariant(last.state) && all_reached(before, entries, last.state)
        }),
    decreases rounds,
{
    let first = first_progress(before, entries);
    if rounds == 0 {
        lemma_invariant_of_parts(before, first.state);
        assert forall|i: int| 0 <= i < first.state.queue.len() implies is_reached(
            before,
            entries,
            first.state,
            #[trigger] first.state.queue[i],
        ) by {
            if i < before.queue.len() {
                assert(first.state.queue[i] == before.queue[i]);
            } else {
                assert(first.state.queue[i] == supported_entries(entries)[i - before.queue.len()]);
            }
        }
    } else {
        let earlier = progress_after(first, patterns, files, table, (rounds - 1) as nat);
        lemma_progress_reaches(before, patterns, entries, files, table, (rounds - 1) as nat);
        let waiting = pending(earlier.state.queue, earlier.state.visited);
        let file = waiting[0];
        let taken = AnalyzerView { queue: waiting.drop_first(), ..earlier.state };
        lemma_invariant_of_parts(earlier.state, taken);
        lemma_pending_shrinks(earlier.state.queue, earlier.state.visited);
        assert forall|i: int| 0 <= i < waiting.len() implies is_reached(
            before,
            entries,
            taken,
            #[trigger] waiting[i],
        ) by {
            lemma_pending_is_of_queue(earlier.state.queue, earlier.state.visited, i);
            let at = earlier.state.queue.index_of(waiting[i]);
            assert(is_reached(before, entries, earlier.state, earlier.state.queue[at]));
        }
        assert forall|i: int| 0 <= i < taken.queue.len() implies is_reached(
            before,
            entries,
            taken,
            #[trigger] taken.queue[i],
        ) by {
            assert(taken.queue[i] == waiting[i + 1]);
        }
        assert(all_reached(before, entries, taken));
        match known_state(files, file) {
            FileContent::Missing => {},
            FileContent::Unreadable => {
                if room_for(taken.graph, 0) {
                    lemma_visit_reaches(before, entries, taken, file, Seq::empty());
                }
            },
            FileContent::Loaded { content, configs_present } => {
                let found = scan_result(patterns, content@);
                let resolved = round_answers(earlier, patterns, files, table);
                let asked = AnalyzerView {
                    cache_keys: keys_after(taken, file, found, configs_present@),
                    ..taken
                };
                if found.len() > 0 {
                    lemma_with_key(
                        taken.cache_keys,
                        governing_config(file, taken.root, configs_present@),
                    );
                }
                lemma_invariant_of_parts(taken, asked);
                assert(all_reached(before, entries, asked));
                if room_for(taken.graph, resolved.len()) {
                    lemma_visit_reaches(before, entries, asked, file, resolved);
                }
            },
        }
    }
}

/// A walk scans only files that were reached: every file that it leaves
/// scanned was scanned or waited before it, or is an entry that is a source
/// file, or is the target of an import. And it leaves a state that meets the
/// invariant of the walk.
pub proof fn lemma_walk_scans_reached(
    before: AnalyzerView,
    patterns: Seq<Seq<char>>,
    entries: Seq<Seq<char>>,
    files: Seq<SourceFile>,
    table: Seq<Resolution>,
    rounds: nat,
    after: AnalyzerView,
    ended: Result<Seq<DiagnosticView>, Seq<char>>,
)
    requires
        state_invariant(before),
        is_walk(before, patterns, entries, files, table, rounds, after, ended),
    ensures
        state_invariant(after),
        forall|f: Seq<char>| #[trigger]
            after.visited.contains(f) ==> is_reached(before, entries, after, f),
{
    let last = progress_after(first_progress(before, entries), patterns, files, table, rounds);
    lemma_progress_reaches(before, patterns, entries, files, table, rounds);
    lemma_invariant_of_parts(last.state, after);
    assert forall|f: Seq<char>| #[trigger] after.visited.contains(f) implies is_reached(
        before,
        entries,
        after,
        f,
    ) by {
        let i = after.visited.index_of(f);
        assert(is_reached(before, entries, last.state, last.state.visited[i]));
        if is_import_target(last.state, f) {
            let e = choose|e: int|
                0 <= e < last.state.graph.edges.len() && last.state.graph.nodes[(
                #[trigger] last.state.graph.edges[e]).1] == f;
            assert(after.graph.edges[e] == last.state.graph.edges[e]);
        }
    }
}

/// The round that scans a file logs the imports of that file: the log gains
/// one entry for each import that the scan finds in the text of the file, in
/// their order, each with what the table says that it resolves to.
pub proof fn lemma_round_logs(
    progress: Progress,
    patterns: Seq<Seq<char>>,
    files: Seq<SourceFile>,
    table: Seq<Resolution>,
)
    requires
        progress.sound,
        progress.stopped is None,
        pending(progress.state.queue, progress.state.visited).len() > 0,
        known_state(
            files,
            pending(progress.state.queue, progress.state.visited)[0],
        ) matches FileContent::Loaded { content, .. } && room_for(
            progress.state.graph,
            scan_result(patterns, content@).len(),
        ),
    ensures
        ({
            let file = pending(progress.state.queue, progress.state.visited)[0];
            let after = next_progress(
                progress,
                patterns,
                files,
                round_answers(progress, patterns, files, table),
            ).state;
            &&& known_state(files, file) matches FileContent::Loaded { content, .. }
                && after.imports == progress.state.imports + records_of(
                file,
                known_answers(table, file, scan_result(patterns, content@)),
            )
            &&& after.visited == progress.state.visited.push(file)
        }),
{
    let waiting = pending(progress.state.queue, progress.state.visited);
    let file = waiting[0];
    lemma_pending_shrinks(progress.state.queue, progress.state.visited);
    let taken = AnalyzerView { queue: waiting.drop_first(), ..progress.state };
    match known_state(files, file) {
        FileContent::Loaded { content, configs_present } => {
            let found = scan_result(patterns, content@);
            let resolved = known_answers(table, file, found);
            let asked = AnalyzerView {
                cache_keys: keys_after(taken, file, found, configs_present@),
                ..taken
            };
            lemma_visit_logs(asked, file, resolved);
            lemma_visit_pushes(asked, file, resolved);
        },
        _ => {},
    }
}

/// Every supported entry is a source file.
pub proof fn lemma_supported_entries_are(entries: Seq<Seq<char>>, k: int)
    requires
        0 <= k < supported_entries(entries).len(),
    ensures
        entries.contains(supported_entries(entries)[k]),
        is_supported_path(supported_entries(entries)[k]),
    decreases entries.len(),
{
    let earlier = supported_entries(entries.drop_last());
    if is_supported_path(entries.last()) && k == earlier.len() {
        assert(entries[entries.len() - 1] == entries.last());
    } else {
        lemma_supported_entries_are(entries.drop_last(), k);
        let at = entries.drop_last().index_of(earlier[k]);
        assert(entries[at] == earlier[k]);
    }
}

/// A walk of a new analyzer keeps to source files: a path that is no source
/// file is neither scanned nor made a node, whether it is an entry or not.
pub proof fn lemma_walk_keeps_to_source_files(
    root: Seq<char>,
    patterns: Seq<Seq<char>>,
    entries: Seq<Seq<char>>,
    files: Seq<SourceFile>,
    table: Seq<Resolution>,
    rounds: nat,
    after: AnalyzerView,
    ended: Result<Seq<DiagnosticView>, Seq<char>>,
    path: Seq<char>,
)
    requires
        is_walk(initial_state(root), patterns, entries, files, table, rounds, after, ended),
        !is_supported_path(path),
    ensures
        !after.visited.contains(path),
        !after.graph.nodes.contains(path),
{
    let before = initial_state(root);
    lemma_initial_state(root);
    lemma_walk_scans_reached(before, patterns, entries, files, table, rounds, after, ended);
    if supported_entries(entries).contains(path) {
        lemma_supported_entries_are(entries, supported_entries(entries).index_of(path));
    }
    if is_import_target(after, path) {
        let e = choose|e: int|
            0 <= e < after.graph.edges.len() && after.graph.nodes[(
            #[trigger] after.graph.edges[e]).1] == path;
        assert(is_supported_path(after.graph.nodes[after.graph.edges[e].1]));
    }
    if after.visited.contains(path) {
        assert(is_reached(before, entries, after, path));
    }
    if after.graph.nodes.contains(path) {
        let n = after.graph.nodes.index_of(path);
        assert(after.visited.contains(after.graph.nodes[n]) || is_import_target(
            after,
            after.graph.nodes[n],
        ));
    }
}

/// Every entry that is a source file is among the supported entries.
pub proof fn lemma_supported_entries(entries: Seq<Seq<char>>, i: int)
    requires
        0 <= i < entries.len(),
        is_supported_path(entries[i]),
    ensures
        supported_entries(entries).contains(entries[i]),
    decreases entries.len(),
{
    let earlier = supported_entries(entries.drop_last());
    if i == entries.len() - 1 {
        assert(supported_entries(entries)[earlier.len() as int] == entries[i]);
    } else {
        lemma_supported_entries(entries.drop_last(), i);
        let at = earlier.index_of(entries[i]);
        assert(supported_entries(entries)[at] == entries[i]);
    }
}

/// Every unsupported entry is an entry that is no source file.
pub proof fn lemma_unsupported_entries(entries: Seq<Seq<char>>, k: int)
    requires
        0 <= k < unsupported_entries(entries).len(),
    ensures
        entries.contains(unsupported_entries(entries)[k]),
        !is_supported_path(unsupported_entries(entries)[k]),
    decreases entries.len(),
{
    let earlier = unsupported_entries(entries.drop_last());
    if !is_supported_path(entries.last()) && k == earlier.len() {
        assert(entries[entries.len() - 1] == entries.last());
    } else {
        lemma_unsupported_entries(entries.drop_last(), k);
        let at = entries.drop_last().index_of(earlier[k]);
        assert(entries[at] == earlier[k]);
    }
}

/// The entry that speaks for a path is the only one that does.
pub proof fn lemma_one_entry(files: Seq<SourceFile>, path: Seq<char>, i: int)
    requires
        is_entry_of(files, path, i),
    ensures
        forall|j: int| is_entry_of(files, path, j) ==> j == i,
{
    assert forall|j: int| is_entry_of(files, path, j) implies j == i by {
        if j < i {
            assert(files[j].path@ != path);
        } else if i < j {
            assert(files[i].path@ != path);
        }
    }
}

/// Once the queue is empty, what is accounted for is done with.
pub proof fn lemma_queue_emptied(
    before: AnalyzerView,
    after: AnalyzerView,
    readable: Set<Seq<char>>,
    path: Seq<char>,
)
    requires
        is_accounted(before, readable, path),
        after.visited == before.visited,
        pending(before.queue, before.visited).len() == 0,
    ensures
        after.visited.contains(path) || !readable.contains(path),
{
    if before.queue.contains(path) {
        crate::walk::lemma_pending_keeps(before.queue, before.visited, path);
    }
}

/// What one round of the walk keeps: after the visit of the file that was
/// taken from the queue, the scanned files are those of before and that
/// file, fewer known files wait for their scan, and what was accounted for
/// still is.
pub proof fn lemma_step(
    start: AnalyzerView,
    taken: AnalyzerView,
    after: AnalyzerView,
    file: Seq<char>,
    imports: Seq<ResolvedImportView>,
    files: Seq<SourceFile>,
    entries: Seq<Seq<char>>,
)
    requires
        state_invariant(taken),
        !taken.visited.contains(file),
        can_be_scanned(files, file),
        after == visit_result(taken, file, imports),
        keeps_scanned(start, taken),
        scans_known(start, taken, files),
        forall|i: int|
            0 <= i < entries.len() && is_supported_path(entries[i]) ==> (#[trigger] entries[i])
                == file || is_accounted(taken, scannable_files(files), entries[i]),
        is_settled(start, scannable_files(files)) ==> is_settled_but(
            taken,
            scannable_files(files),
            file,
        ),
    ensures
        keeps_scanned(start, after),
        scans_known(start, after, files),
        entries_accounted(after, files, entries),
        is_settled(start, scannable_files(files)) ==> is_settled(after, scannable_files(files)),
        unscanned(known_paths(files), after.visited) < unscanned(known_paths(files), taken.visited),
        after.root == taken.root,
{
    let readable = scannable_files(files);
    lemma_visit_marks_file(taken, file, imports);
    crate::walk::lemma_visit_keeps_invariant(taken, file, imports);
    assert(after.visited[taken.visited.len() as int] == file);
    assert forall|f: Seq<char>| start.visited.contains(f) implies #[trigger] after.visited.contains(
        f,
    ) by {
        assert(taken.visited.contains(f));
        let at = taken.visited.index_of(f);
        assert(after.visited[at] == f);
    }
    assert forall|f: Seq<char>| #[trigger] after.visited.contains(f) implies start.visited.contains(
        f,
    ) || can_be_scanned(files, f) by {
        let at = after.visited.index_of(f);
        if at < taken.visited.len() {
            assert(taken.visited[at] == f);
            assert(taken.visited.contains(f));
        }
    }
    assert forall|i: int|
        0 <= i < entries.len() && is_supported_path(entries[i]) implies is_accounted(
        after,
        readable,
        #[trigger] entries[i],
    ) by {
        lemma_visit_keeps_accounted(taken, file, imports, readable, entries[i]);
    }
    if is_settled(start, readable) {
        lemma_visit_settles(taken, file, imports, readable);
    }
    let i = choose|i: int| is_entry_of(files, file, i) && !(files[i].state is Missing);
    assert(known_paths(files)[i] == file);
    lemma_unscanned_shrinks(known_paths(files), taken.visited, file);
}

/// Finds the entry that speaks for `path`.
pub fn find_file(files: &Vec<SourceFile>, path: &str) -> (found: Option<usize>)
    ensures
        found matches Some(i) ==> is_entry_of(files@, path@, i as int),
        found is None ==> forall|j: int| 0 <= j < files.len() ==> (#[trigger] files[j]).path@ != path@,
{
    let wanted = path.to_owned();
    let mut i: usize = 0;
    while i < files.len()
        invariant
            i <= files.len(),
            wanted@ == path@,
            forall|j: int| 0 <= j < i ==> (#[trigger] files[j]).path@ != path@,
        decreases files.len() - i,
    {
        if files[i].path == wanted {
            return Some(i);
        }
        i += 1;
    }
    None
}

/// Finds what the import of `target` in `file` resolves to.
pub fn find_answer(table: &Vec<Resolution>, file: &str, target: &str) -> (answer: Option<String>)
    ensures
        optional_text(answer) == known_answer(table@, file@, target@),
{
    let wanted_file = file.to_owned();
    let wanted_target = target.to_owned();
    let mut i: usize = 0;
    while i < table.len()
        invariant
            i <= table.len(),
            wanted_file@ == file@,
            wanted_target@ == target@,
            forall|j: int|
                0 <= j < i ==> !((#[trigger] table[j]).file@ == file@ && table[j].target@
                    == target@),
        decreases table.len() - i,
    {
        if table[i].file == wanted_file && table[i].target == wanted_target {
            proof {
                assert(is_answer_of(table@, file@, target@, i as int));
                assert forall|k: int| is_answer_of(table@, file@, target@, k) implies k == i by {
                    if k < i {
                        assert(!(table[k].file@ == file@ && table[k].target@ == target@));
                    } else if i < k {
                        assert(!(table[i as int].file@ == file@ && table[i as int].target@
                            == target@));
                    }
                }
            }
            return match &table[i].resolved {
                Some(path) => Some(path.clone()),
                None => None,
            };
        }
        i += 1;
    }
    assert forall|k: int| !is_answer_of(table@, file@, target@, k) by {}
    None
}

/// The imports found in `file`, each with what it resolves to.
pub fn answers_from(table: &Vec<Resolution>, file: &str, found: &Vec<RawImport>) -> (resolved: Vec<
    ResolvedImport,
>)
    ensures
        resolved_imports_view(resolved@) == known_answers(table@, file@, raw_imports_view(found@)),
{
    let mut resolved: Vec<ResolvedImport> = Vec::new();
    let mut i: usize = 0;
    while i < found.len()
        invariant
            i <= found.len(),
            resolved.len() == i,
            forall|j: int|
                0 <= j < i ==> (#[trigger] resolved[j])@ == known_answers(
                    table@,
                    file@,
                    raw_imports_view(found@),
                )[j],
        decreases found.len() - i,
    {
        let import = &found[i];
        let answer = find_answer(table, file, import.target.as_str());
        resolved.push(
            ResolvedImport {
                target: import.target.clone(),
                line_number: import.line_number,
                resolved: answer,
            },
        );
        i += 1;
    }
    assert(resolved_imports_view(resolved@) =~= known_answers(
        table@,
        file@,
        raw_imports_view(found@),
    ));
    resolved
}

impl DependencyAnalyzer {
    /// Walks the project from the entry files until no file waits for its
    /// scan, with `files` and `resolutions` as all that is known of the
    /// project: a file without an entry in `files` counts as missing, an
    /// import without an entry in `resolutions` as not resolved. Returns
    /// what the walk met and could not use, in the order in which it met it,
    /// or stops at the first file for which the graph has no room.
    ///
    /// Round by round, the first file of the queue that was not scanned is
    /// taken and visited: the state after the walk and its diagnostics are
    /// settled by the state before it and by what is known of the project.
    ///
    /// The walk ends: every round takes a file from the queue, and only the
    /// scan of a known file that was not scanned before puts files into it.
    pub fn build_dependency_graph(
        &mut self,
        entry_files: &Vec<String>,
        files: &Vec<SourceFile>,
        resolutions: &Vec<Resolution>,
    ) -> (ended: Result<Vec<Diagnostic>, GraphFullError>)
        requires
            old(self).wf(),
        ensures
            final(self).wf(),
            final(self).patterns() == old(self).patterns(),
            final(self)@.root == old(self)@.root,
            // The state and the diagnostics are those of the walk that
            // `is_walk` describes round by round. What follows are
            // consequences of it.
            exists|rounds: nat|
                is_walk(
                    old(self)@,
                    old(self).patterns(),
                    entry_files.deep_view(),
                    files@,
                    resolutions@,
                    rounds,
                    final(self)@,
                    ending(ended),
                ),
            keeps_scanned(old(self)@, final(self)@),
            scans_known(old(self)@, final(self)@, files@),
            ended is Ok ==> final(self)@.queue.len() == 0,
            // Every entry that is a source file was scanned, unless it is no
            // known file that exists.
            ended is Ok ==> forall|i: int|
                0 <= i < entry_files.len() && is_supported_path(entry_files[i]@) ==> is_walked(
                    final(self)@,
                    files@,
                    #[trigger] entry_files[i]@,
                ),
            // And so was every file that an import leads to.
            ended is Ok && is_settled(old(self)@, scannable_files(files@)) ==> forall|n: int|
                0 <= n < final(self)@.graph.nodes.len() ==> is_walked(
                    final(self)@,
                    files@,
                    #[trigger] final(self)@.graph.nodes[n],
                ),
            ended matches Ok(diagnostics) ==> diagnostics_hold(
                diagnostics@,
                entry_files.deep_view(),
                files@,
            ),
            // Only files that were reached are scanned.
            forall|f: Seq<char>| #[trigger]
                final(self)@.visited.contains(f) ==> is_reached(
                    old(self)@,
                    entry_files.deep_view(),
                    final(self)@,
                    f,
                ),
            // Where no file that waits can be scanned, nothing is scanned,
            // and each file that waits is reported as missing.
            nothing_to_scan(
                first_progress(old(self)@, entry_files.deep_view()).state.queue,
                old(self)@.visited,
                files@,
            ) ==> final(self)@ == (AnalyzerView { queue: Seq::empty(), ..old(self)@ }) && ending(
                ended,
            ) == Ok::<Seq<DiagnosticView>, Seq<char>>(
                first_progress(old(self)@, entry_files.deep_view()).diagnostics + missing_reports(
                    first_progress(old(self)@, entry_files.deep_view()).state.queue,
                    old(self)@.visited,
                ),
            ),
    {
        let ghost entries = entry_files.deep_view();
        let ghost readable = scannable_files(files@);
        let ghost known = known_paths(files@);
        let ghost start = self@;
        let ghost table = resolutions@;
        let skipped = self.enqueue_entries(entry_files);
        let ghost first = first_progress(start, entries);
        let mut diagnostics: Vec<Diagnostic> = Vec::new();
        let mut k: usize = 0;
        assert(diagnostics_view(diagnostics@) =~= first.diagnostics.take(0));
        while k < skipped.len()
            invariant
                k <= skipped.len(),
                entries == entry_files.deep_view(),
                skipped.deep_view() == unsupported_entries(entries),
                first == first_progress(start, entries),
                diagnostics_hold(diagnostics@, entries, files@),
                diagnostics_view(diagnostics@) == first.diagnostics.take(k as int),
            decreases skipped.len() - k,
        {
            proof {
                lemma_unsupported_entries(entries, k as int);
                assert(skipped.deep_view()[k as int] == skipped[k as int]@);
            }
            let ghost so_far = diagnostics_view(diagnostics@);
            let skip = Diagnostic::UnsupportedEntry(skipped[k].clone());
            diagnostics.push(skip);
            assert(diagnostics_view(diagnostics@) =~= so_far.push(skip@));
            assert(first.diagnostics.take(k + 1) =~= first.diagnostics.take(k as int).push(
                skip@,
            ));
            k += 1;
        }
        let ghost mut rounds: nat = 0;
        proof {
            assert(first.diagnostics.take(skipped.len() as int) =~= first.diagnostics);
            assert(first.state == self@);
            assert forall|n: int| 0 <= n < self@.graph.nodes.len() && is_settled(
                start,
                readable,
            ) implies is_accounted(self@, readable, #[trigger] self@.graph.nodes[n]) by {
                let path = start.graph.nodes[n];
                assert(is_accounted(start, readable, path));
                if start.queue.contains(path) {
                    let at = start.queue.index_of(path);
                    assert(self@.queue[at] == path);
                }
            }
            assert forall|i: int|
                0 <= i < entries.len() && is_supported_path(entries[i]) implies is_accounted(
                self@,
                readable,
                #[trigger] entries[i],
            ) by {
                lemma_supported_entries(entries, i);
                let at = supported_entries(entries).index_of(entries[i]);
                assert(self@.queue[start.queue.len() + at] == entries[i]);
            }
        }
        loop
            invariant
                self.wf(),
                start == old(self)@,
                entries == entry_files.deep_view(),
                readable == scannable_files(files@),
                known == known_paths(files@),
                table == resolutions@,
                self.patterns() == old(self).patterns(),
                self@.root == start.root,
                keeps_scanned(start, self@),
                scans_known(start, self@, files@),
                entries_accounted(self@, files@, entries),
                is_settled(start, readable) ==> is_settled(self@, readable),
                diagnostics_hold(diagnostics@, entries, files@),
                first == first_progress(start, entries),
                state_invariant(start),
                ({
                    let so_far = progress_after(first, self.patterns(), files@, table, rounds);
                    &&& so_far.sound
                    &&& so_far.stopped is None
                    &&& so_far.state == self@
                    &&& so_far.diagnostics == diagnostics_view(diagnostics@)
                }),
            decreases unscanned(known, self@.visited), self@.queue.len(),
        {
            let ghost before = self@;
            let ghost so_far = progress_after(first, self.patterns(), files@, table, rounds);
            let ghost reported = diagnostics_view(diagnostics@);
            let next = self.next_file();
            let ghost taken = self@;
            proof {
                lemma_pending_shrinks(before.queue, before.visited);
            }
            match next {
                None => {
                    proof {
                        assert(taken.queue.len() == 0);
                        assert forall|i: int|
                            0 <= i < entry_files.len() && is_supported_path(
                                entry_files[i]@,
                            ) implies is_walked(taken, files@, #[trigger] entry_files[i]@) by {
                            assert(entries[i] == entry_files[i]@);
                            assert(is_accounted(before, readable, entries[i]));
                            lemma_queue_emptied(before, taken, readable, entries[i]);
                        }
                        if is_settled(start, readable) {
                            assert forall|n: int| 0 <= n < taken.graph.nodes.len() implies is_walked(
                                taken,
                                files@,
                                #[trigger] taken.graph.nodes[n],
                            ) by {
                                assert(is_accounted(before, readable, before.graph.nodes[n]));
                                lemma_queue_emptied(
                                    before,
                                    taken,
                                    readable,
                                    before.graph.nodes[n],
                                );
                            }
                        }
                        let end = ending(Ok(diagnostics));
                        assert(is_walk(
                            start,
                            self.patterns(),
                            entries,
                            files@,
                            table,
                            rounds,
                            self@,
                            end,
                        ));
                        lemma_walk_scans_reached(
                            start,
                            self.patterns(),
                            entries,
                            files@,
                            table,
                            rounds,
                            self@,
                            end,
                        );
                        if nothing_to_scan(first.state.queue, start.visited, files@) {
                            lemma_walk_over_missing_files(
                                start,
                                self.patterns(),
                                entries,
                                files@,
                                table,
                                rounds,
                                self@,
                                end,
                            );
                        }
                    }
                    return Ok(diagnostics);
                },
                Some(file) => {
                    let ghost waiting = pending(before.queue, before.visited);
                    proof {
                        assert(file@ == waiting[0]);
                        if is_settled(start, readable) {
                            lemma_taking_keeps_settled(before, taken, readable);
                        }
                        assert forall|i: int|
                            0 <= i < entries.len() && is_supported_path(
                                entries[i],
                            ) implies (#[trigger] entries[i]) == file@ || is_accounted(
                            taken,
                            readable,
                            entries[i],
                        ) by {
                            lemma_taking_keeps_accounted(before, taken, readable, entries[i]);
                        }
                    }
                    let at = find_file(files, file.as_str());
                    proof {
                        match at {
                            Some(i) => {
                                lemma_one_entry(files@, file@, i as int);
                                assert(files[i as int].state == known_state(files@, file@));
                                if !(files[i as int].state is Missing) {
                                    assert(is_entry_of(files@, file@, i as int));
                                    assert(can_be_scanned(files@, file@));
                                    assert(known[i as int] == file@);
                                }
                            },
                            None => {
                                assert forall|i: int| !is_entry_of(files@, file@, i) by {}
                                assert(known_state(files@, file@) is Missing);
                            },
                        }
                    }
                    let observed = match at {
                        Some(i) => match &files[i].state {
                            FileContent::Missing => FileState::Missing,
                            FileContent::Unreadable => FileState::Unreadable,
                            FileContent::Loaded { content, configs_present } => {
                                let request = self.extract_imports_from_file(
                                    file.as_str(),
                                    content.as_str(),
                                    configs_present,
                                );
                                FileState::Scanned {
                                    imports: answers_from(
                                        resolutions,
                                        file.as_str(),
                                        &request.imports,
                                    ),
                                }
                            },
                        },
                        None => FileState::Missing,
                    };
                    let ghost asked = self@;
                    let ghost round = round_answers(so_far, self.patterns(), files@, table);
                    proof {
                        lemma_invariant_of_parts(taken, asked);
                        if is_settled(start, readable) {
                            assert forall|n: int| 0 <= n < asked.graph.nodes.len() implies (
                            #[trigger] asked.graph.nodes[n]) == file@ || is_accounted(
                                asked,
                                readable,
                                asked.graph.nodes[n],
                            ) by {
                                assert(taken.graph.nodes[n] == file@ || is_accounted(
                                    taken,
                                    readable,
                                    taken.graph.nodes[n],
                                ));
                            }
                        }
                        assert forall|i: int|
                            0 <= i < entries.len() && is_supported_path(
                                entries[i],
                            ) implies (#[trigger] entries[i]) == file@ || is_accounted(
                            asked,
                            readable,
                            entries[i],
                        ) by {
                            assert(entries[i] == file@ || is_accounted(taken, readable, entries[i]));
                        }
                        assert(progress_after(first, self.patterns(), files@, table, rounds + 1)
                            == next_progress(so_far, self.patterns(), files@, round));
                    }
                    let outcome = self.visit(file.as_str(), &observed);
                    match outcome {
                        VisitOutcome::AlreadyVisited => {},
                        VisitOutcome::Missing => {
                            assert(!can_be_scanned(files@, file@));
                            let missed = Diagnostic::MissingFile(file);
                            diagnostics.push(missed);
                            assert(diagnostics_view(diagnostics@) =~= reported.push(missed@));
                        },
                        VisitOutcome::GraphFull => {
                            proof {
                                let end = Err::<Seq<DiagnosticView>, Seq<char>>(file@);
                                assert(is_walk(
                                    start,
                                    self.patterns(),
                                    entries,
                                    files@,
                                    table,
                                    rounds + 1,
                                    self@,
                                    end,
                                ));
                                lemma_walk_scans_reached(
                                    start,
                                    self.patterns(),
                                    entries,
                                    files@,
                                    table,
                                    rounds + 1,
                                    self@,
                                    end,
                                );
                                if nothing_to_scan(first.state.queue, start.visited, files@) {
                                    lemma_walk_over_missing_files(
                                        start,
                                        self.patterns(),
                                        entries,
                                        files@,
                                        table,
                                        rounds + 1,
                                        self@,
                                        end,
                                    );
                                }
                            }
                            return Err(GraphFullError { file });
                        },
                        VisitOutcome::Unreadable => {
                            proof {
                                lemma_step(start, asked, self@, file@, Seq::empty(), files@, entries);
                                assert(is_unreadable(files@, file@));
                            }
                            let unread = Diagnostic::UnreadableFile(file);
                            diagnostics.push(unread);
                            assert(diagnostics_view(diagnostics@) =~= reported.push(unread@));
                        },
                        VisitOutcome::Scanned { imports } => {
                            proof {
                                lemma_step(start, asked, self@, file@, round, files@, entries);
                            }
                        },
                    }
                    proof {
                        rounds = rounds + 1;
                    }
                },
            }
        }
    }
}

} // verus!
