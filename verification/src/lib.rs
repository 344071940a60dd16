//! Detection of circular imports among JavaScript and TypeScript source files.
//!
//! A run walks a project breadth first from its entry files. Each file is
//! scanned for import-like constructs, each import target is resolved to a
//! file, and the files and imports become the nodes and edges of a directed
//! graph. The strongly connected components of that graph are the circular
//! dependencies.
//!
//! The library never touches the disk: the [`analyzer`] holds the state of
//! the walk and decides every step, and its caller reads the files, asks the
//! resolver, and says what it saw.
//!
//! - [`scanner`] finds the imports in the text of a file.
//! - [`resolver`] says which resolver serves a file, one for each project
//!   configuration, and with which settings it is made.
//! - [`graph`] holds the dependency graph.
//! - [`analyzer`] walks the project step by step, [`traversal`] walks a
//!   project that is held in memory, and [`walk`] says what a walk is and
//!   what holds of it.
//! - [`cycles`] reports the circular dependencies, and [`reach`] says what a
//!   strongly connected component is.
//! - [`report`] renders a result as text and as a GraphViz document.
//! - [`model`], [`paths`] and [`text`] hold the records and the helpers that
//!   the others share.

pub mod analyzer;
pub mod cycles;
pub mod graph;
pub mod model;
pub mod paths;
pub mod reach;
pub mod report;
pub mod resolver;
pub mod scanner;
pub mod text;
pub mod traversal;
pub mod walk;
