//! The records that a run produces: imports as they were found and resolved,
//! and the summary that is handed to the reports.

use crate::cycles::{cycles_view, CircularDependency};
use crate::paths::{is_excluded, is_excluded_path, optional_text};
use vstd::prelude::*;

verus! {

/// An import as the scanner found it, with what the resolver made of its
/// target.
#[derive(Debug)]
pub struct ResolvedImport {
    /// The target as written between the quotes.
    pub target: String,
    /// The line of the import, counted from 1.
    pub line_number: usize,
    /// The file that the target resolves to, or `None` where it does not
    /// resolve.
    pub resolved: Option<String>,
}

/// The mathematical value of a `ResolvedImport`.
pub struct ResolvedImportView {
    pub target: Seq<char>,
    pub line_number: nat,
    pub resolved: Option<Seq<char>>,
}

impl View for ResolvedImport {
    type V = ResolvedImportView;

    open spec fn view(&self) -> ResolvedImportView {
        ResolvedImportView {
            target: self.target@,
            line_number: self.line_number as nat,
            resolved: optional_text(self.resolved),
        }
    }
}

/// One entry of the import log.
#[derive(Debug)]
pub struct ImportInfo {
    /// The file that holds the import.
    pub from: String,
    /// The target as written between the quotes.
    pub to: String,
    /// The file that the target resolves to; `None` where it does not
    /// resolve, and where it resolves into a dependency directory.
    pub resolved_to: Option<String>,
    /// The line of the import, counted from 1.
    pub line_number: usize,
}

/// The mathematical value of an `ImportInfo`.
pub struct ImportInfoView {
    pub from: Seq<char>,
    pub to: Seq<char>,
    pub resolved_to: Option<Seq<char>>,
    pub line_number: nat,
}

impl View for ImportInfo {
    type V = ImportInfoView;

    open spec fn view(&self) -> ImportInfoView {
        ImportInfoView {
            from: self.from@,
            to: self.to@,
            resolved_to: optional_text(self.resolved_to),
            line_number: self.line_number as nat,
        }
    }
}

impl Clone for ImportInfo {
    fn clone(&self) -> (copy: ImportInfo)
        ensures
            copy@ == self@,
    {
        ImportInfo {
            from: self.from.clone(),
            to: self.to.clone(),
            resolved_to: match &self.resolved_to {
                Some(path) => Some(path.clone()),
                None => None,
            },
            line_number: self.line_number,
        }
    }
}

/// The views of a list of resolved imports.
pub open spec fn resolved_imports_view(imports: Seq<ResolvedImport>) -> Seq<ResolvedImportView> {
    imports.map_values(|i: ResolvedImport| i@)
}

/// The views of a list of import records.
pub open spec fn imports_view(imports: Seq<ImportInfo>) -> Seq<ImportInfoView> {
    imports.map_values(|i: ImportInfo| i@)
}

/// What is logged of a path that an import resolved to: nothing where the
/// path lies in a dependency directory.
pub open spec fn logged_path(resolved: Option<Seq<char>>) -> Option<Seq<char>> {
    match resolved {
        Some(path) => if is_excluded_path(path) {
            None
        } else {
            resolved
        },
        None => None,
    }
}

/// The log entry of an import found in `file`.
pub open spec fn import_record_of(file: Seq<char>, import: ResolvedImportView) -> ImportInfoView {
    ImportInfoView {
        from: file,
        to: import.target,
        resolved_to: logged_path(import.resolved),
        line_number: import.line_number,
    }
}

/// Makes the log entry of an import found in `file`. A target that resolves
/// into a dependency directory is logged without a resolved path.
pub fn import_record(file: &str, import: &ResolvedImport) -> (record: ImportInfo)
    ensures
        record@ == import_record_of(file@, import@),
{
    let resolved_to = match &import.resolved {
        Some(path) => if is_excluded(path.as_str()) {
            None
        } else {
            Some(path.clone())
        },
        None => None,
    };
    ImportInfo {
        from: file.to_owned(),
        to: import.target.clone(),
        resolved_to,
        line_number: import.line_number,
    }
}

/// What a run hands to the reports.
#[derive(Debug)]
pub struct AnalysisResult {
    /// The number of files that were scanned.
    pub files_processed: usize,
    /// The number of entries of the import log.
    pub imports_found: usize,
    /// The circular dependencies, in the order in which they were found.
    pub circular_dependencies: Vec<CircularDependency>,
    /// The import log, in the order of discovery.
    pub imports: Vec<ImportInfo>,
}

/// The mathematical value of an `AnalysisResult`.
pub struct AnalysisResultView {
    pub files_processed: nat,
    pub imports_found: nat,
    pub circular_dependencies: Seq<Seq<Seq<char>>>,
    pub imports: Seq<ImportInfoView>,
}

impl View for AnalysisResult {
    type V = AnalysisResultView;

    open spec fn view(&self) -> AnalysisResultView {
        AnalysisResultView {
            files_processed: self.files_processed as nat,
            imports_found: self.imports_found as nat,
            circular_dependencies: cycles_view(self.circular_dependencies@),
            imports: imports_view(self.imports@),
        }
    }
}

} // verus!
