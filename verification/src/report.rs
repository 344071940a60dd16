//! The reports: what a run found, as a GraphViz document and as text.

use crate::cycles::{cycles_view, CircularDependency};
use crate::graph::{lemma_index_of, lemma_with_node, with_node};
use crate::model::{imports_view, AnalysisResult, AnalysisResultView, ImportInfo, ImportInfoView};
use crate::paths::{display_path, relative_to};
use crate::text::{decimal_digits, decimal_string, position_of};
use vstd::prelude::*;

verus! {

/// The files of `cycle` added to `files`, each once, in their order.
pub open spec fn cycle_files(files: Seq<Seq<char>>, cycle: Seq<Seq<char>>) -> Seq<Seq<char>>
    decreases cycle.len(),
{
    if cycle.len() == 0 {
        files
    } else {
        with_node(cycle_files(files, cycle.drop_last()), cycle.last())
    }
}

/// The files that take part in a cycle, each once, in the order in which the
/// cycles list them.
pub open spec fn circular_files(cycles: Seq<Seq<Seq<char>>>) -> Seq<Seq<char>>
    decreases cycles.len(),
{
    if cycles.len() == 0 {
        Seq::empty()
    } else {
        cycle_files(circular_files(cycles.drop_last()), cycles.last())
    }
}

/// Adding the files of a cycle keeps the files distinct.
pub proof fn lemma_cycle_files(files: Seq<Seq<char>>, cycle: Seq<Seq<char>>)
    requires
        files.no_duplicates(),
    ensures
        cycle_files(files, cycle).no_duplicates(),
    decreases cycle.len(),
{
    if cycle.len() > 0 {
        lemma_cycle_files(files, cycle.drop_last());
        lemma_with_node(cycle_files(files, cycle.drop_last()), cycle.last());
    }
}

/// The name of the node at `index` in the document: `n` and the index.
pub open spec fn node_id(index: int) -> Seq<char> {
    "n"@ + decimal_digits(index as nat)
}

/// The line that declares a node, labelled with its path as shown below the
/// project root.
pub open spec fn node_line(index: int, path: Seq<char>, root: Seq<char>) -> Seq<char> {
    "  "@ + node_id(index) + " [label=\""@ + display_path(path, root) + "\"];\n"@
}

/// The lines that declare the nodes, one for each file, in order.
pub open spec fn node_lines(files: Seq<Seq<char>>, root: Seq<char>) -> Seq<char>
    decreases files.len(),
{
    if files.len() == 0 {
        Seq::empty()
    } else {
        node_lines(files.drop_last(), root) + node_line(files.len() - 1, files.last(), root)
    }
}

/// The line that draws an edge between two nodes.
pub open spec fn edge_line(from: int, to: int) -> Seq<char> {
    "  "@ + node_id(from) + " -> "@ + node_id(to) + ";\n"@
}

/// One cycle holds both files.
pub open spec fn share_cycle(cycles: Seq<Seq<Seq<char>>>, from: Seq<char>, to: Seq<char>) -> bool {
    exists|k: int|
        0 <= k < cycles.len() && (#[trigger] cycles[k]).contains(from) && cycles[k].contains(to)
}

/// What one log entry adds to the document: an edge, where the entry has a
/// resolved path and the import lies on a cycle, that is, where one cycle
/// holds both of its files; else nothing.
pub open spec fn import_edge(
    cycles: Seq<Seq<Seq<char>>>,
    files: Seq<Seq<char>>,
    import: ImportInfoView,
) -> Seq<char> {
    match import.resolved_to {
        Some(path) => if share_cycle(cycles, import.from, path) {
            edge_line(files.index_of(import.from), files.index_of(path))
        } else {
            Seq::empty()
        },
        None => Seq::empty(),
    }
}

/// The lines that draw the edges, in the order of the import log.
pub open spec fn edge_lines(
    cycles: Seq<Seq<Seq<char>>>,
    files: Seq<Seq<char>>,
    imports: Seq<ImportInfoView>,
) -> Seq<char>
    decreases imports.len(),
{
    if imports.len() == 0 {
        Seq::empty()
    } else {
        edge_lines(cycles, files, imports.drop_last()) + import_edge(cycles, files, imports.last())
    }
}

/// Adding the files of a cycle keeps the files that were there and holds the
/// files of the cycle.
pub proof fn lemma_cycle_files_hold(files: Seq<Seq<char>>, cycle: Seq<Seq<char>>, file: Seq<char>)
    requires
        files.contains(file) || cycle.contains(file),
    ensures
        cycle_files(files, cycle).contains(file),
    decreases cycle.len(),
{
    if cycle.len() > 0 {
        let earlier = cycle_files(files, cycle.drop_last());
        let after = with_node(earlier, cycle.last());
        if cycle.last() == file {
            if !earlier.contains(file) {
                assert(after[earlier.len() as int] == file);
            }
        } else {
            if cycle.contains(file) {
                let at = cycle.index_of(file);
                assert(cycle.drop_last()[at] == file);
            }
            lemma_cycle_files_hold(files, cycle.drop_last(), file);
            let at = earlier.index_of(file);
            assert(after[at] == file);
        }
    }
}

/// Every file of a cycle is one of the files that take part in a cycle.
pub proof fn lemma_circular_files_hold(cycles: Seq<Seq<Seq<char>>>, k: int, file: Seq<char>)
    requires
        0 <= k < cycles.len(),
        cycles[k].contains(file),
    ensures
        circular_files(cycles).contains(file),
    decreases cycles.len(),
{
    let earlier = circular_files(cycles.drop_last());
    if k < cycles.len() - 1 {
        lemma_circular_files_hold(cycles.drop_last(), k, file);
    }
    lemma_cycle_files_hold(earlier, cycles.last(), file);
}

/// The line that puts a file into the cluster of its cycle.
pub open spec fn member_line(files: Seq<Seq<char>>, file: Seq<char>) -> Seq<char> {
    if files.contains(file) {
        "    "@ + node_id(files.index_of(file)) + ";\n"@
    } else {
        Seq::empty()
    }
}

/// The lines that put the files of a cycle into its cluster.
pub open spec fn member_lines(files: Seq<Seq<char>>, cycle: Seq<Seq<char>>) -> Seq<char>
    decreases cycle.len(),
{
    if cycle.len() == 0 {
        Seq::empty()
    } else {
        member_lines(files, cycle.drop_last()) + member_line(files, cycle.last())
    }
}

/// The cluster that groups the files of the cycle at `index`.
pub open spec fn cluster(files: Seq<Seq<char>>, index: int, cycle: Seq<Seq<char>>) -> Seq<char> {
    "\n  subgraph cluster_cycle_"@ + decimal_digits(index as nat) + " {\n"@
        + "    label=\"Circular Dependency #"@ + decimal_digits((index + 1) as nat) + "\";\n"@
        + "    style=dashed;\n"@ + "    color=red;\n"@ + member_lines(files, cycle) + "  }\n"@
}

/// The clusters of the cycles, in their order.
pub open spec fn clusters(files: Seq<Seq<char>>, cycles: Seq<Seq<Seq<char>>>) -> Seq<char>
    decreases cycles.len(),
{
    if cycles.len() == 0 {
        Seq::empty()
    } else {
        clusters(files, cycles.drop_last()) + cluster(files, cycles.len() - 1, cycles.last())
    }
}

/// The lines that open the document.
pub open spec fn dot_header() -> Seq<char> {
    "digraph circular_dependencies {\n"@ + "  rankdir=LR;\n"@
        + "  node [shape=box, style=rounded, color=red, fontcolor=red];\n"@
        + "  edge [fontsize=10, color=red, penwidth=2];\n\n"@
}

/// The GraphViz document of a result. Without a cycle it holds one node that
/// says so. Else it holds a node for each file that takes part in a cycle,
/// an edge for each logged import that lies on a cycle, and a cluster for
/// each cycle.
pub open spec fn dot_output(result: AnalysisResultView, root: Seq<char>) -> Seq<char> {
    if result.circular_dependencies.len() == 0 {
        dot_header()
            + "  no_cycles [label=\"No Circular Dependencies Found\", shape=ellipse, color=green, fontcolor=green];\n"@
            + "}\n"@
    } else {
        let files = circular_files(result.circular_dependencies);
        dot_header() + node_lines(files, root) + "\n"@ + edge_lines(
            result.circular_dependencies,
            files,
            result.imports,
        ) + clusters(files, result.circular_dependencies) + "}\n"@
    }
}

/// Collects the files that take part in a cycle, each once.
pub fn collect_circular_files(cycles: &Vec<CircularDependency>) -> (files: Vec<String>)
    ensures
        files.deep_view() == circular_files(cycles_view(cycles@)),
        files.deep_view().no_duplicates(),
{
    let ghost all = cycles_view(cycles@);
    let mut files: Vec<String> = Vec::new();
    let mut c: usize = 0;
    assert(all.take(0) =~= Seq::empty());
    assert(files.deep_view() =~= Seq::<Seq<char>>::empty());
    while c < cycles.len()
        invariant
            c <= cycles.len(),
            all == cycles_view(cycles@),
            files.deep_view() == circular_files(all.take(c as int)),
            files.deep_view().no_duplicates(),
        decreases cycles.len() - c,
    {
        let cycle = &cycles[c].cycle;
        let ghost members = cycle.deep_view();
        let ghost base = files.deep_view();
        proof {
            assert(all.take(c + 1).drop_last() =~= all.take(c as int));
            assert(all.take(c + 1).last() == members);
            assert(members.take(0) =~= Seq::empty());
        }
        let mut f: usize = 0;
        while f < cycle.len()
            invariant
                f <= cycle.len(),
                members == cycle.deep_view(),
                base.no_duplicates(),
                files.deep_view() == cycle_files(base, members.take(f as int)),
                files.deep_view().no_duplicates(),
            decreases cycle.len() - f,
        {
            let ghost so_far = files.deep_view();
            proof {
                assert(members.take(f + 1).drop_last() =~= members.take(f as int));
                assert(members.take(f + 1).last() == cycle[f as int]@);
                lemma_with_node(so_far, cycle[f as int]@);
            }
            let known = position_of(&files, cycle[f].as_str());
            proof {
                assert forall|j: int| 0 <= j < so_far.len() implies so_far[j] == files[j]@ by {}
            }
            match known {
                Some(at) => {
                    assert(so_far[at as int] == cycle[f as int]@);
                    assert(so_far.contains(cycle[f as int]@));
                },
                None => {
                    assert(!so_far.contains(cycle[f as int]@));
                    files.push(cycle[f].clone());
                    assert(files.deep_view() =~= so_far.push(cycle[f as int]@));
                },
            }
            f += 1;
        }
        assert(members.take(cycle.len() as int) =~= members);
        c += 1;
    }
    assert(all.take(cycles.len() as int) =~= all);
    files
}

/// The name of the node at `index`.
fn node_id_text(index: usize) -> (id: String)
    ensures
        id@ == node_id(index as int),
{
    let mut id = "n".to_owned();
    id.append(decimal_string(index).as_str());
    id
}

/// The name of the node of `file`, if it is one of `files`.
fn node_id_of(files: &Vec<String>, file: &str) -> (id: Option<String>)
    requires
        files.deep_view().no_duplicates(),
    ensures
        files.deep_view().contains(file@) ==> (id matches Some(text) && text@ == node_id(
            files.deep_view().index_of(file@),
        )),
        !files.deep_view().contains(file@) ==> id is None,
{
    let found = position_of(files, file);
    proof {
        let all = files.deep_view();
        assert forall|j: int| 0 <= j < all.len() implies all[j] == files[j]@ by {}
    }
    match found {
        Some(at) => {
            proof {
                assert(files.deep_view()[at as int] == file@);
                lemma_index_of(files.deep_view(), file@, at as int);
            }
            Some(node_id_text(at))
        },
        None => None,
    }
}

/// Appends the lines that declare the nodes.
fn append_node_lines(dot: &mut String, files: &Vec<String>, root: &str)
    ensures
        final(dot)@ == old(dot)@ + node_lines(files.deep_view(), root@),
{
    let ghost all = files.deep_view();
    let ghost start = dot@;
    let mut i: usize = 0;
    assert(all.take(0) =~= Seq::empty());
    assert(dot@ =~= start + node_lines(all.take(0), root@));
    while i < files.len()
        invariant
            i <= files.len(),
            all == files.deep_view(),
            dot@ == start + node_lines(all.take(i as int), root@),
        decreases files.len() - i,
    {
        let ghost before = dot@;
        proof {
            assert(all.take(i + 1).drop_last() =~= all.take(i as int));
            assert(all.take(i + 1).last() == files[i as int]@);
        }
        dot.append("  ");
        dot.append(node_id_text(i).as_str());
        dot.append(" [label=\"");
        dot.append(relative_to(files[i].as_str(), root).as_str());
        dot.append("\"];\n");
        assert(dot@ =~= before + node_line(i as int, files[i as int]@, root@));
        assert(dot@ =~= start + node_lines(all.take(i + 1), root@));
        i += 1;
    }
    assert(all.take(files.len() as int) =~= all);
}

/// Whether one of the cycles holds both files.
pub fn in_one_cycle(cycles: &Vec<CircularDependency>, from: &str, to: &str) -> (shared: bool)
    ensures
        shared == share_cycle(cycles_view(cycles@), from@, to@),
{
    let ghost all = cycles_view(cycles@);
    let mut k: usize = 0;
    while k < cycles.len()
        invariant
            k <= cycles.len(),
            all == cycles_view(cycles@),
            forall|j: int|
                0 <= j < k ==> !((#[trigger] all[j]).contains(from@) && all[j].contains(to@)),
        decreases cycles.len() - k,
    {
        let cycle = &cycles[k].cycle;
        let has_from = position_of(cycle, from);
        let has_to = position_of(cycle, to);
        proof {
            let members = all[k as int];
            assert(members == cycle.deep_view());
            assert forall|j: int| 0 <= j < members.len() implies members[j] == cycle[j]@ by {}
            match has_from {
                Some(at) => {
                    assert(members[at as int] == from@);
                },
                None => {},
            }
            match has_to {
                Some(at) => {
                    assert(members[at as int] == to@);
                },
                None => {},
            }
        }
        if has_from.is_some() && has_to.is_some() {
            return true;
        }
        k += 1;
    }
    false
}

/// Appends the lines that draw the edges.
fn append_edge_lines(
    dot: &mut String,
    cycles: &Vec<CircularDependency>,
    files: &Vec<String>,
    imports: &Vec<ImportInfo>,
)
    requires
        files.deep_view().no_duplicates(),
        files.deep_view() == circular_files(cycles_view(cycles@)),
    ensures
        final(dot)@ == old(dot)@ + edge_lines(
            cycles_view(cycles@),
            files.deep_view(),
            imports_view(imports@),
        ),
{
    let ghost all = imports_view(imports@);
    let ghost rings = cycles_view(cycles@);
    let ghost start = dot@;
    let mut i: usize = 0;
    assert(all.take(0) =~= Seq::empty());
    assert(dot@ =~= start + edge_lines(rings, files.deep_view(), all.take(0)));
    while i < imports.len()
        invariant
            i <= imports.len(),
            all == imports_view(imports@),
            rings == cycles_view(cycles@),
            files.deep_view().no_duplicates(),
            files.deep_view() == circular_files(rings),
            dot@ == start + edge_lines(rings, files.deep_view(), all.take(i as int)),
        decreases imports.len() - i,
    {
        let ghost before = dot@;
        let import = &imports[i];
        proof {
            assert(all.take(i + 1).drop_last() =~= all.take(i as int));
            assert(all.take(i + 1).last() == import@);
        }
        match &import.resolved_to {
            Some(resolved) => {
                if in_one_cycle(cycles, import.from.as_str(), resolved.as_str()) {
                    proof {
                        let k = choose|k: int|
                            0 <= k < rings.len() && (#[trigger] rings[k]).contains(import.from@)
                                && rings[k].contains(resolved@);
                        lemma_circular_files_hold(rings, k, import.from@);
                        lemma_circular_files_hold(rings, k, resolved@);
                    }
                    let from_id = node_id_of(files, import.from.as_str());
                    let to_id = node_id_of(files, resolved.as_str());
                    match (from_id, to_id) {
                        (Some(from), Some(to)) => {
                            dot.append("  ");
                            dot.append(from.as_str());
                            dot.append(" -> ");
                            dot.append(to.as_str());
                            dot.append(";\n");
                        },
                        _ => {},
                    }
                }
            },
            None => {},
        }
        assert(dot@ =~= before + import_edge(rings, files.deep_view(), import@));
        assert(dot@ =~= start + edge_lines(rings, files.deep_view(), all.take(i + 1)));
        i += 1;
    }
    assert(all.take(imports.len() as int) =~= all);
}

/// Appends the lines that put the files of a cycle into its cluster.
fn append_member_lines(dot: &mut String, files: &Vec<String>, cycle: &Vec<String>)
    requires
        files.deep_view().no_duplicates(),
    ensures
        final(dot)@ == old(dot)@ + member_lines(files.deep_view(), cycle.deep_view()),
{
    let ghost all = cycle.deep_view();
    let ghost start = dot@;
    let mut i: usize = 0;
    assert(all.take(0) =~= Seq::empty());
    assert(dot@ =~= start + member_lines(files.deep_view(), all.take(0)));
    while i < cycle.len()
        invariant
            i <= cycle.len(),
            all == cycle.deep_view(),
            files.deep_view().no_duplicates(),
            dot@ == start + member_lines(files.deep_view(), all.take(i as int)),
        decreases cycle.len() - i,
    {
        let ghost before = dot@;
        proof {
            assert(all.take(i + 1).drop_last() =~= all.take(i as int));
            assert(all.take(i + 1).last() == cycle[i as int]@);
        }
        match node_id_of(files, cycle[i].as_str()) {
            Some(id) => {
                dot.append("    ");
                dot.append(id.as_str());
                dot.append(";\n");
            },
            None => {},
        }
        assert(dot@ =~= before + member_line(files.deep_view(), cycle[i as int]@));
        assert(dot@ =~= start + member_lines(files.deep_view(), all.take(i + 1)));
        i += 1;
    }
    assert(all.take(cycle.len() as int) =~= all);
}

/// Appends the clusters of the cycles.
fn append_clusters(dot: &mut String, files: &Vec<String>, cycles: &Vec<CircularDependency>)
    requires
        files.deep_view().no_duplicates(),
    ensures
        final(dot)@ == old(dot)@ + clusters(files.deep_view(), cycles_view(cycles@)),
{
    let ghost all = cycles_view(cycles@);
    let ghost start = dot@;
    let mut i: usize = 0;
    assert(all.take(0) =~= Seq::empty());
    assert(dot@ =~= start + clusters(files.deep_view(), all.take(0)));
    while i < cycles.len()
        invariant
            i <= cycles.len(),
            all == cycles_view(cycles@),
            files.deep_view().no_duplicates(),
            dot@ == start + clusters(files.deep_view(), all.take(i as int)),
        decreases cycles.len() - i,
    {
        let ghost before = dot@;
        proof {
            assert(all.take(i + 1).drop_last() =~= all.take(i as int));
            assert(all.take(i + 1).last() == cycles[i as int]@);
        }
        dot.append("\n  subgraph cluster_cycle_");
        dot.append(decimal_string(i).as_str());
        dot.append(" {\n");
        dot.append("    label=\"Circular Dependency #");
        dot.append(decimal_string(i + 1).as_str());
        dot.append("\";\n");
        dot.append("    style=dashed;\n");
        dot.append("    color=red;\n");
        append_member_lines(dot, files, &cycles[i].cycle);
        dot.append("  }\n");
        assert(dot@ =~= before + cluster(files.deep_view(), i as int, cycles[i as int]@));
        assert(dot@ =~= start + clusters(files.deep_view(), all.take(i + 1)));
        i += 1;
    }
    assert(all.take(cycles.len() as int) =~= all);
}

/// Renders a result as a GraphViz document: the files that take part in a
/// cycle, the imports between them, and a cluster for each cycle.
pub fn generate_dot_output(result: &AnalysisResult, project_root: &str) -> (dot: String)
    ensures
        dot@ == dot_output(result@, project_root@),
{
    let mut dot = String::new();
    dot.append("digraph circular_dependencies {\n");
    dot.append("  rankdir=LR;\n");
    dot.append("  node [shape=box, style=rounded, color=red, fontcolor=red];\n");
    dot.append("  edge [fontsize=10, color=red, penwidth=2];\n\n");
    assert(dot@ =~= dot_header());
    if result.circular_dependencies.len() == 0 {
        dot.append(
            "  no_cycles [label=\"No Circular Dependencies Found\", shape=ellipse, color=green, fontcolor=green];\n",
        );
        dot.append("}\n");
        assert(dot@ =~= dot_output(result@, project_root@));
        return dot;
    }
    let files = collect_circular_files(&result.circular_dependencies);
    append_node_lines(&mut dot, &files, project_root);
    dot.append("\n");
    append_edge_lines(&mut dot, &result.circular_dependencies, &files, &result.imports);
    append_clusters(&mut dot, &files, &result.circular_dependencies);
    dot.append("}\n");
    assert(dot@ =~= dot_output(result@, project_root@));
    dot
}

/// The formats in which a result is reported.
#[derive(Clone, Copy, Debug, PartialEq, Eq, Structural)]
pub enum OutputFormat {
    /// Text for a reader.
    Text,
    /// A JSON document.
    Json,
    /// A GraphViz document.
    Dot,
}

/// The exit status of a run that found `cycles` circular dependencies: 1
/// where the text report shows at least one, else 0. The JSON and the
/// GraphViz report end with 0 whatever they show.
pub open spec fn exit_status_of(format: OutputFormat, cycles: nat) -> int {
    if cycles > 0 && format == OutputFormat::Text {
        1
    } else {
        0
    }
}

/// The exit status of a run.
pub fn exit_status(format: OutputFormat, cycles: usize) -> (status: i32)
    ensures
        status == exit_status_of(format, cycles as nat),
{
    if cycles > 0 && format == OutputFormat::Text {
        1
    } else {
        0
    }
}

/// The file that stands after position `j` in a cycle: the next one, and the
/// first one after the last.
pub open spec fn successor(cycle: Seq<Seq<char>>, j: int) -> Seq<char> {
    if j == cycle.len() - 1 {
        cycle[0]
    } else {
        cycle[j + 1]
    }
}

/// The line of the text report that leads from the file at `j` to the file
/// after it.
pub open spec fn chain_line(cycle: Seq<Seq<char>>, j: int, root: Seq<char>) -> Seq<char> {
    let from = display_path(cycle[j], root);
    let to = display_path(successor(cycle, j), root);
    if j == cycle.len() - 1 {
        "  └─ "@ + from + " → "@ + to + " (completes circle)\n"@
    } else {
        "  ├─ "@ + from + " → "@ + to + "\n"@
    }
}

/// The first `count` chain lines of a cycle.
pub open spec fn chain_lines(cycle: Seq<Seq<char>>, count: int, root: Seq<char>) -> Seq<char>
    decreases count,
{
    if count <= 0 {
        Seq::empty()
    } else {
        chain_lines(cycle, count - 1, root) + chain_line(cycle, count - 1, root)
    }
}

/// Whether a log entry is an import of `file` that stays inside `cycle`.
pub open spec fn is_inside(cycle: Seq<Seq<char>>, file: Seq<char>, import: ImportInfoView) -> bool {
    import.from == file && match import.resolved_to {
        Some(path) => cycle.contains(path),
        None => false,
    }
}

/// The line of the text report that shows one import inside a cycle.
pub open spec fn import_line(import: ImportInfoView, root: Seq<char>) -> Seq<char> {
    match import.resolved_to {
        Some(path) => "      - Line "@ + decimal_digits(import.line_number) + ": "@ + import.to
            + " → "@ + display_path(path, root) + "\n"@,
        None => Seq::empty(),
    }
}

/// The lines that show the imports of `file` inside `cycle`, in the order of
/// the import log.
pub open spec fn import_lines(
    cycle: Seq<Seq<char>>,
    file: Seq<char>,
    imports: Seq<ImportInfoView>,
    root: Seq<char>,
) -> Seq<char>
    decreases imports.len(),
{
    if imports.len() == 0 {
        Seq::empty()
    } else if is_inside(cycle, file, imports.last()) {
        import_lines(cycle, file, imports.drop_last(), root) + import_line(imports.last(), root)
    } else {
        import_lines(cycle, file, imports.drop_last(), root)
    }
}

/// What the detailed text report shows of one file of a cycle: a heading and
/// its imports inside the cycle, or nothing where it has none.
pub open spec fn file_details(
    cycle: Seq<Seq<char>>,
    file: Seq<char>,
    imports: Seq<ImportInfoView>,
    root: Seq<char>,
) -> Seq<char> {
    let lines = import_lines(cycle, file, imports, root);
    if lines.len() == 0 {
        Seq::empty()
    } else {
        "    From "@ + display_path(file, root) + ":\n"@ + lines
    }
}

/// The details of the first `count` files of a cycle.
pub open spec fn cycle_details(
    cycle: Seq<Seq<char>>,
    count: int,
    imports: Seq<ImportInfoView>,
    root: Seq<char>,
) -> Seq<char>
    decreases count,
{
    if count <= 0 {
        Seq::empty()
    } else {
        cycle_details(cycle, count - 1, imports, root) + file_details(
            cycle,
            cycle[count - 1],
            imports,
            root,
        )
    }
}

/// What the text report shows of the cycle at `index`: a heading, the chain
/// of its files, the details where they are asked for, and an empty line.
pub open spec fn cycle_block(
    result: AnalysisResultView,
    index: int,
    verbose: bool,
    root: Seq<char>,
) -> Seq<char> {
    let cycle = result.circular_dependencies[index];
    "Circular Dependency #"@ + decimal_digits((index + 1) as nat) + ":\n"@ + chain_lines(
        cycle,
        cycle.len() as int,
        root,
    ) + (if verbose {
        "  Dependencies involved:\n"@ + cycle_details(
            cycle,
            cycle.len() as int,
            result.imports,
            root,
        )
    } else {
        Seq::empty()
    }) + "\n"@
}

/// The blocks of the first `count` cycles.
pub open spec fn cycle_blocks(
    result: AnalysisResultView,
    count: int,
    verbose: bool,
    root: Seq<char>,
) -> Seq<char>
    decreases count,
{
    if count <= 0 {
        Seq::empty()
    } else {
        cycle_blocks(result, count - 1, verbose, root) + cycle_block(
            result,
            count - 1,
            verbose,
            root,
        )
    }
}

/// The two lines that open the text report.
pub open spec fn text_summary(result: AnalysisResultView) -> Seq<char> {
    "📊 Processed "@ + decimal_digits(result.files_processed) + " files\n"@ + "🔗 Found "@
        + decimal_digits(result.imports_found) + " imports\n"@
}

/// The text report of a result: the counts, then either a line that says
/// that there is no circular dependency, or their number and a block for
/// each.
pub open spec fn text_output(result: AnalysisResultView, verbose: bool, root: Seq<char>) -> Seq<
    char,
> {
    if result.circular_dependencies.len() == 0 {
        text_summary(result) + "✅ No circular dependencies found!\n"@
    } else {
        text_summary(result) + "🔴 Found "@ + decimal_digits(result.circular_dependencies.len())
            + " circular dependencies:\n"@ + "\n"@ + cycle_blocks(
            result,
            result.circular_dependencies.len() as int,
            verbose,
            root,
        )
    }
}

/// Appends the chain of a cycle.
fn append_chain_lines(text: &mut String, cycle: &Vec<String>, root: &str)
    ensures
        final(text)@ == old(text)@ + chain_lines(cycle.deep_view(), cycle.len() as int, root@),
{
    let ghost all = cycle.deep_view();
    let ghost start = text@;
    let mut j: usize = 0;
    assert(text@ =~= start + chain_lines(all, 0, root@));
    while j < cycle.len()
        invariant
            j <= cycle.len(),
            all == cycle.deep_view(),
            text@ == start + chain_lines(all, j as int, root@),
        decreases cycle.len() - j,
    {
        let ghost before = text@;
        let last = j == cycle.len() - 1;
        let next = if last {
            &cycle[0]
        } else {
            &cycle[j + 1]
        };
        assert(next@ == successor(all, j as int));
        assert(all[j as int] == cycle[j as int]@);
        if last {
            text.append("  └─ ");
        } else {
            text.append("  ├─ ");
        }
        text.append(relative_to(cycle[j].as_str(), root).as_str());
        text.append(" → ");
        text.append(relative_to(next.as_str(), root).as_str());
        if last {
            text.append(" (completes circle)\n");
        } else {
            text.append("\n");
        }
        assert(text@ =~= before + chain_line(all, j as int, root@));
        j += 1;
    }
}

/// The lines that show the imports of `file` inside `cycle`.
fn import_lines_text(cycle: &Vec<String>, file: &str, imports: &Vec<ImportInfo>, root: &str) -> (lines:
    String)
    ensures
        lines@ == import_lines(cycle.deep_view(), file@, imports_view(imports@), root@),
{
    let ghost all = imports_view(imports@);
    let ghost members = cycle.deep_view();
    let mut lines = String::new();
    let mut i: usize = 0;
    assert(all.take(0) =~= Seq::empty());
    while i < imports.len()
        invariant
            i <= imports.len(),
            all == imports_view(imports@),
            members == cycle.deep_view(),
            lines@ == import_lines(members, file@, all.take(i as int), root@),
        decreases imports.len() - i,
    {
        let ghost before = lines@;
        let import = &imports[i];
        proof {
            assert(all.take(i + 1).drop_last() =~= all.take(i as int));
            assert(all.take(i + 1).last() == import@);
            assert forall|j: int| 0 <= j < members.len() implies members[j] == cycle[j]@ by {}
        }
        match &import.resolved_to {
            Some(path) => {
                let inside = position_of(cycle, path.as_str());
                proof {
                    match inside {
                        Some(at) => {
                            assert(members[at as int] == path@);
                        },
                        None => {},
                    }
                }
                if crate::text::same_text(import.from.as_str(), file) && inside.is_some() {
                    lines.append("      - Line ");
                    lines.append(decimal_string(import.line_number).as_str());
                    lines.append(": ");
                    lines.append(import.to.as_str());
                    lines.append(" → ");
                    lines.append(relative_to(path.as_str(), root).as_str());
                    lines.append("\n");
                    assert(lines@ =~= before + import_line(import@, root@));
                }
            },
            None => {},
        }
        i += 1;
    }
    assert(all.take(imports.len() as int) =~= all);
    lines
}

/// Appends the details of a cycle.
fn append_cycle_details(
    text: &mut String,
    cycle: &Vec<String>,
    imports: &Vec<ImportInfo>,
    root: &str,
)
    ensures
        final(text)@ == old(text)@ + cycle_details(
            cycle.deep_view(),
            cycle.len() as int,
            imports_view(imports@),
            root@,
        ),
{
    let ghost all = cycle.deep_view();
    let ghost start = text@;
    let mut j: usize = 0;
    assert(text@ =~= start + cycle_details(all, 0, imports_view(imports@), root@));
    while j < cycle.len()
        invariant
            j <= cycle.len(),
            all == cycle.deep_view(),
            text@ == start + cycle_details(all, j as int, imports_view(imports@), root@),
        decreases cycle.len() - j,
    {
        let ghost before = text@;
        let file = &cycle[j];
        assert(all[j as int] == file@);
        let lines = import_lines_text(cycle, file.as_str(), imports, root);
        if !lines.as_str().is_empty() {
            text.append("    From ");
            text.append(relative_to(file.as_str(), root).as_str());
            text.append(":\n");
            text.append(lines.as_str());
        }
        assert(text@ =~= before + file_details(all, file@, imports_view(imports@), root@));
        j += 1;
    }
}

/// Renders a result as text for a reader: how many files and imports were
/// seen, and each circular dependency as a chain of files; with `verbose`,
/// also the imports that make up each chain, with their lines.
pub fn render_text_results(result: &AnalysisResult, verbose: bool, project_root: &str) -> (text:
    String)
    ensures
        text@ == text_output(result@, verbose, project_root@),
{
    let mut text = String::new();
    text.append("📊 Processed ");
    text.append(decimal_string(result.files_processed).as_str());
    text.append(" files\n");
    text.append("🔗 Found ");
    text.append(decimal_string(result.imports_found).as_str());
    text.append(" imports\n");
    assert(text@ =~= text_summary(result@));
    let cycles = &result.circular_dependencies;
    if cycles.len() == 0 {
        text.append("✅ No circular dependencies found!\n");
        return text;
    }
    text.append("🔴 Found ");
    text.append(decimal_string(cycles.len()).as_str());
    text.append(" circular dependencies:\n");
    text.append("\n");
    let ghost start = text@;
    let mut i: usize = 0;
    assert(text@ =~= start + cycle_blocks(result@, 0, verbose, project_root@));
    while i < cycles.len()
        invariant
            i <= cycles.len(),
            cycles == &result.circular_dependencies,
            text@ == start + cycle_blocks(result@, i as int, verbose, project_root@),
        decreases cycles.len() - i,
    {
        let ghost before = text@;
        let cycle = &cycles[i].cycle;
        assert(result@.circular_dependencies[i as int] == cycle.deep_view());
        text.append("Circular Dependency #");
        text.append(decimal_string(i + 1).as_str());
        text.append(":\n");
        append_chain_lines(&mut text, cycle, project_root);
        if verbose {
            text.append("  Dependencies involved:\n");
            append_cycle_details(&mut text, cycle, &result.imports, project_root);
        }
        text.append("\n");
        assert(text@ =~= before + cycle_block(result@, i as int, verbose, project_root@));
        i += 1;
    }
    text
}

} // verus!
