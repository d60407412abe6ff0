//! The import graph: its modules, what holds of every graph, and what counts
//! as a true finding when none can be built.
//!
//! A graph holds its modules in the order in which the walk over the imports
//! was done with them, so every import of a module points to a module before
//! it, and the entry module stands last.

use crate::parse::{is_first_malformed, is_well_formed, parsed, ParsedModule};
use crate::directive::ImportView;
use crate::path::{place_view, resolved, Location, LocationView, ModuleId, ProjectRoot};
use vstd::prelude::*;

verus! {

/// One module of the graph: its identity, its text as read, what the text
/// declares, and for each import, in order, the index of the module that it
/// names.
#[derive(Debug, PartialEq, Eq)]
pub struct ModuleNode {
    pub id: ModuleId,
    pub source: Vec<u8>,
    pub module: ParsedModule,
    pub targets: Vec<usize>,
}

/// Why a graph could not be built.
#[derive(Debug, PartialEq, Eq)]
pub enum LoadError {
    /// `reference`, written in `importer`, names no module below the root,
    /// or names one whose file does not exist. `at` is where the reference
    /// stands in the importer; there is no such place for the request that
    /// names the entry module.
    UnresolvedPath { importer: ModuleId, reference: Vec<u8>, at: Option<Location> },
    /// The module holds a directive line that breaks the grammar.
    MalformedDirective { module: ModuleId, line: usize, column: usize },
    /// Each module of `cycle` imports the next, and the last the first.
    /// Each place is where its module writes the reference to the next.
    ImportCycle { cycle: Vec<Location> },
}

/// The files that can be read: the text of each module that exists.
pub type Files = Map<Seq<u8>, Seq<u8>>;

/// The text of the file `id`, if there is one.
pub open spec fn file_text(files: Files, id: Seq<u8>) -> Option<Seq<u8>> {
    if files.dom().contains(id) {
        Some(files[id])
    } else {
        None
    }
}

/// Whether what the node says of its text is what the text declares.
pub open spec fn node_parsed(node: ModuleNode) -> bool {
    is_well_formed(node.source@) && node.module@ == parsed(node.source@)
}

/// The module that import `k` of `node` names.
pub open spec fn import_target(node: ModuleNode, k: int, root: Seq<u8>) -> Option<Seq<u8>> {
    resolved(node.id@, node.module@.imports[k].from, root)
}

/// Whether the first imports of `frame`, as many as it has targets, name
/// the modules of `done` that its targets point to.
pub open spec fn links_ok(done: Seq<ModuleNode>, frame: ModuleNode, root: Seq<u8>) -> bool {
    &&& node_parsed(frame)
    &&& frame.targets@.len() <= frame.module@.imports.len()
    &&& forall|k: int|
        0 <= k < frame.targets@.len() ==> 0 <= (#[trigger] frame.targets@[k]) < done.len()
            && import_target(frame, k, root) == Some(done[frame.targets@[k] as int].id@)
}

/// Whether node `i` is complete: every import has its target, and every
/// target stands before the node.
pub open spec fn is_closed(nodes: Seq<ModuleNode>, i: int, root: Seq<u8>) -> bool {
    &&& links_ok(nodes.take(i), nodes[i], root)
    &&& nodes[i].targets@.len() == nodes[i].module@.imports.len()
}

/// Whether no two nodes are the same module.
pub open spec fn distinct_ids(nodes: Seq<ModuleNode>) -> bool {
    forall|i: int, j: int|
        0 <= i < j < nodes.len() ==> (#[trigger] nodes[i]).id@ != (#[trigger] nodes[j]).id@
}

/// Whether `id` is the module of none of the nodes.
pub open spec fn is_absent(nodes: Seq<ModuleNode>, id: Seq<u8>) -> bool {
    forall|i: int| 0 <= i < nodes.len() ==> (#[trigger] nodes[i]).id@ != id
}

/// Whether `node` has `j` among its targets.
pub open spec fn points_to(node: ModuleNode, j: int) -> bool {
    exists|k: int| 0 <= k < node.targets@.len() && #[trigger] node.targets@[k] == j
}

/// Whether one of `nodes` from index `from` on has `j` among its targets.
pub open spec fn is_used(nodes: Seq<ModuleNode>, from: int, j: int) -> bool {
    exists|i: int| from <= i < nodes.len() && 0 <= i && points_to(#[trigger] nodes[i], j)
}

/// Whether a node after node `j` has `j` among its targets.
pub open spec fn is_imported(nodes: Seq<ModuleNode>, j: int) -> bool {
    is_used(nodes, j + 1, j)
}

/// The identity and text of every node.
pub open spec fn entries_of(nodes: Seq<ModuleNode>) -> Set<(Seq<u8>, Seq<u8>)> {
    Set::new(
        |e: (Seq<u8>, Seq<u8>)|
            exists|i: int|
                0 <= i < nodes.len() && (#[trigger] nodes[i]).id@ == e.0 && nodes[i].source@ == e.1,
    )
}

/// Whether every entry is a file of `files` with its text.
pub open spec fn all_from(entries: Set<(Seq<u8>, Seq<u8>)>, files: Files) -> bool {
    forall|e: (Seq<u8>, Seq<u8>)| #[trigger]
        entries.contains(e) ==> files.dom().contains(e.0) && files[e.0] == e.1
}

/// The identities of the nodes, in order.
pub open spec fn ids_of(nodes: Seq<ModuleNode>) -> Seq<Seq<u8>> {
    Seq::new(nodes.len(), |i: int| nodes[i].id@)
}

/// Places as the contracts see them.
pub open spec fn place_views(places: Seq<Location>) -> Seq<LocationView> {
    Seq::new(places.len(), |i: int| places[i]@)
}

/// The modules of a list of places, in order.
pub open spec fn modules_of(places: Seq<Location>) -> Seq<Seq<u8>> {
    Seq::new(places.len(), |i: int| places[i].module@)
}

/// Whether the reference of `import` starts at the line and column of
/// `place`.
pub open spec fn is_import_at(import: ImportView, place: LocationView) -> bool {
    import.line == place.line && import.column == place.column
}

/// Whether the module of `place` exists, is well formed and holds at
/// `place` an import that names the module `to`.
pub open spec fn imports_at(files: Files, root: Seq<u8>, place: LocationView, to: Seq<u8>) -> bool {
    &&& files.dom().contains(place.module)
    &&& is_well_formed(files[place.module])
    &&& exists|k: int|
        0 <= k < parsed(files[place.module]).imports.len() && is_import_at(
            #[trigger] parsed(files[place.module]).imports[k],
            place,
        ) && resolved(place.module, parsed(files[place.module]).imports[k].from, root) == Some(to)
}

/// The module that follows module `t` of a cycle: the next, or the first
/// behind the last.
pub open spec fn next_in(ids: Seq<Seq<u8>>, t: int) -> Seq<u8> {
    if t + 1 < ids.len() {
        ids[t + 1]
    } else {
        ids[0]
    }
}

/// Whether place `t` of the cycle is where its module imports the module
/// that follows it.
pub open spec fn is_cited(files: Files, root: Seq<u8>, cycle: Seq<Location>, t: int) -> bool {
    imports_at(files, root, cycle[t]@, next_in(modules_of(cycle), t))
}

/// Whether the module `from` exists, is well formed and holds an import
/// that names the module `to`.
pub open spec fn imports_module(files: Files, root: Seq<u8>, from: Seq<u8>, to: Seq<u8>) -> bool {
    &&& files.dom().contains(from)
    &&& is_well_formed(files[from])
    &&& exists|k: int|
        0 <= k < parsed(files[from]).imports.len() && resolved(
            from,
            #[trigger] parsed(files[from]).imports[k].from,
            root,
        ) == Some(to)
}

/// Whether module `t` of `chain` imports the module after it.
pub open spec fn is_link(files: Files, root: Seq<u8>, chain: Seq<Seq<u8>>, t: int) -> bool {
    imports_module(files, root, chain[t], chain[t + 1])
}

/// Whether each module of `chain` imports the next.
pub open spec fn is_chain(files: Files, root: Seq<u8>, chain: Seq<Seq<u8>>) -> bool {
    forall|t: int| 0 <= t < chain.len() - 1 ==> #[trigger] is_link(files, root, chain, t)
}

/// Whether imports lead from the module `from` to the module `to`.
pub open spec fn reaches(files: Files, root: Seq<u8>, from: Seq<u8>, to: Seq<u8>) -> bool {
    exists|chain: Seq<Seq<u8>>|
        chain.len() >= 1 && chain[0] == from && chain.last() == to && #[trigger] is_chain(
            files,
            root,
            chain,
        )
}

/// Whether there is no file to read for `target`.
pub open spec fn is_missing(files: Files, target: Option<Seq<u8>>) -> bool {
    match target {
        Some(id) => !files.dom().contains(id),
        None => true,
    }
}

/// Whether the module `importer` exists, is well formed and holds at `at`
/// an import of `reference` for which there is no file.
pub open spec fn has_dead_import(
    files: Files,
    root: Seq<u8>,
    importer: Seq<u8>,
    reference: Seq<u8>,
    at: Option<LocationView>,
) -> bool {
    &&& files.dom().contains(importer)
    &&& is_well_formed(files[importer])
    &&& at matches Some(place) && place.module == importer && exists|k: int|
        0 <= k < parsed(files[importer]).imports.len() && (#[trigger] parsed(
            files[importer],
        ).imports[k]).from == reference && is_import_at(parsed(files[importer]).imports[k], place)
    &&& is_missing(files, resolved(importer, reference, root))
}

/// Whether the error is a true finding about `files` when the module that
/// `request` names in `origin` is loaded: what it reports is there, in a
/// module that imports lead to from the entry module.
pub open spec fn is_genuine(
    files: Files,
    root: Seq<u8>,
    origin: Seq<u8>,
    request: Seq<u8>,
    error: LoadError,
) -> bool {
    match resolved(origin, request, root) {
        None => error matches LoadError::UnresolvedPath { importer, reference, at } && importer@
            == origin && reference@ == request && at is None,
        Some(entry) => match error {
            LoadError::UnresolvedPath { importer, reference, at } => {
                ||| importer@ == origin && reference@ == request && at is None
                    && !files.dom().contains(entry)
                ||| reaches(files, root, entry, importer@) && has_dead_import(
                    files,
                    root,
                    importer@,
                    reference@,
                    place_view(at),
                )
            },
            LoadError::MalformedDirective { module, line, column } => {
                &&& reaches(files, root, entry, module@)
                &&& files.dom().contains(module@)
                &&& is_first_malformed(files[module@], line as int, column as int)
            },
            LoadError::ImportCycle { cycle } => {
                &&& cycle@.len() >= 1
                &&& reaches(files, root, entry, cycle@[0].module@)
                &&& is_chain(files, root, modules_of(cycle@))
                &&& imports_module(
                    files,
                    root,
                    cycle@[cycle@.len() - 1].module@,
                    cycle@[0].module@,
                )
                &&& forall|t: int| 0 <= t < cycle@.len() ==> #[trigger] is_cited(files, root, cycle@, t)
            },
        },
    }
}

/// The import graph of one entry module: every module that imports lead to
/// from it, each once, the entry module last.
pub struct ModuleGraph {
    root: ProjectRoot,
    nodes: Vec<ModuleNode>,
}

impl ModuleGraph {
    /// The modules, dependencies first.
    pub closed spec fn nodes(&self) -> Seq<ModuleNode> {
        self.nodes@
    }

    /// The directory below which the modules lie.
    pub closed spec fn root(&self) -> Seq<u8> {
        self.root@
    }

    /// What holds of every graph: it has a module; no module stands twice;
    /// every module is parsed from its own text and each of its imports
    /// points to the module it names, which stands before it; and every
    /// module but the last is imported by one after it.
    pub open spec fn wf(&self) -> bool {
        let nodes = self.nodes();
        &&& nodes.len() >= 1
        &&& distinct_ids(nodes)
        &&& forall|i: int| 0 <= i < nodes.len() ==> is_closed(nodes, i, self.root())
        &&& forall|j: int| 0 <= j < nodes.len() - 1 ==> #[trigger] is_imported(nodes, j)
    }

    #[verifier::type_invariant]
    spec fn holds(&self) -> bool {
        self.wf()
    }

    /// The identity of the entry module.
    pub open spec fn entry(&self) -> Seq<u8> {
        self.nodes().last().id@
    }

    /// Whether every module of the graph is a file of `files`, with the text
    /// that the graph has of it.
    pub open spec fn read_from(&self, files: Files) -> bool {
        all_from(entries_of(self.nodes()), files)
    }

    /// The graph of `nodes` below `root`.
    pub(crate) fn assemble(root: ProjectRoot, nodes: Vec<ModuleNode>) -> (graph: ModuleGraph)
        requires
            nodes@.len() >= 1,
            distinct_ids(nodes@),
            forall|i: int| 0 <= i < nodes@.len() ==> is_closed(nodes@, i, root@),
            forall|j: int| 0 <= j < nodes@.len() - 1 ==> #[trigger] is_imported(nodes@, j),
        ensures
            graph.wf(),
            graph.nodes() == nodes@,
            graph.root() == root@,
    {
        ModuleGraph { root, nodes }
    }

    /// The number of modules.
    pub fn len(&self) -> (n: usize)
        ensures
            n == self.nodes().len(),
            n >= 1,
            self.wf(),
    {
        proof {
            use_type_invariant(self);
        }
        self.nodes.len()
    }

    /// Module `i`.
    pub fn node(&self, i: usize) -> (node: &ModuleNode)
        requires
            i < self.nodes().len(),
        ensures
            *node == self.nodes()[i as int],
            self.wf(),
    {
        proof {
            use_type_invariant(self);
        }
        &self.nodes[i]
    }

    /// The directory below which the modules lie.
    pub fn project_root(&self) -> (root: &ProjectRoot)
        ensures
            root@ == self.root(),
            self.wf(),
    {
        proof {
            use_type_invariant(self);
        }
        &self.root
    }
}

/// The index in `nodes` of the first node of the module `id`.
pub fn find_module(nodes: &Vec<ModuleNode>, id: &ModuleId) -> (r: Option<usize>)
    ensures
        match r {
            Some(i) => {
                &&& i < nodes.len()
                &&& nodes[i as int].id@ == id@
                &&& forall|j: int| 0 <= j < i ==> (#[trigger] nodes[j]).id@ != id@
            },
            None => is_absent(nodes@, id@),
        },
{
    let mut i: usize = 0;
    while i < nodes.len()
        invariant
            i <= nodes.len(),
            forall|j: int| 0 <= j < i ==> (#[trigger] nodes[j]).id@ != id@,
        decreases nodes.len() - i,
    {
        if nodes[i].id.same(id) {
            return Some(i);
        }
        i += 1;
    }
    None
}

/// The entries of a list that has grown by one node.
pub proof fn lemma_entries_push(nodes: Seq<ModuleNode>, node: ModuleNode)
    ensures
        entries_of(nodes.push(node)) == entries_of(nodes).insert((node.id@, node.source@)),
{
    let more = nodes.push(node);
    assert forall|e: (Seq<u8>, Seq<u8>)|
        entries_of(more).contains(e) <==> entries_of(nodes).insert(
            (node.id@, node.source@),
        ).contains(e) by {
        if entries_of(more).contains(e) {
            let i = choose|i: int|
                0 <= i < more.len() && (#[trigger] more[i]).id@ == e.0 && more[i].source@ == e.1;
            if i < nodes.len() {
                assert(nodes[i].id@ == e.0);
            }
        }
        if entries_of(nodes).contains(e) {
            let i = choose|i: int|
                0 <= i < nodes.len() && (#[trigger] nodes[i]).id@ == e.0 && nodes[i].source@ == e.1;
            assert(more[i].id@ == e.0);
        }
        if e == (node.id@, node.source@) {
            assert(more[nodes.len() as int].id@ == e.0);
        }
    }
    assert(entries_of(more) =~= entries_of(nodes).insert((node.id@, node.source@)));
}

/// The entry of node `i` is among the entries.
pub proof fn lemma_entry_at(nodes: Seq<ModuleNode>, i: int)
    requires
        0 <= i < nodes.len(),
    ensures
        entries_of(nodes).contains((nodes[i].id@, nodes[i].source@)),
{
    assert(nodes[i].id@ == nodes[i].id@);
}

} // verus!
