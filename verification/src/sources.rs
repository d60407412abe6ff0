//! Building the import graph from a set of files held in memory, and what
//! holds of the result: a graph is built exactly when the files admit one,
//! and every failure is a true finding about the files.

use crate::graph::{
    all_from, file_text, has_dead_import, imports_module, is_chain, is_closed, is_genuine,
    is_import_at, is_link, modules_of,
    is_missing, lemma_entry_at, links_ok, node_parsed, reaches, Files, LoadError, ModuleGraph,
};
use crate::loader::{Loader, Progress};
use crate::parse::{is_well_formed, parsed};
use crate::path::{place_view, resolved, ModuleId, ProjectRoot};
use crate::text::{copy_bytes, split, NEWLINE};
use vstd::prelude::*;

verus! {

/// One file: the module it is and its text.
#[derive(Debug, PartialEq, Eq)]
pub struct SourceFile {
    pub id: ModuleId,
    pub text: Vec<u8>,
}

/// The files of a list. A later file replaces an earlier one of the same
/// module.
pub open spec fn files_of(list: Seq<SourceFile>) -> Files
    decreases list.len(),
{
    if list.len() == 0 {
        Map::empty()
    } else {
        files_of(list.drop_last()).insert(list.last().id@, list.last().text@)
    }
}

/// A set of files held in memory.
#[derive(Debug, PartialEq, Eq)]
pub struct SourceSet {
    files: Vec<SourceFile>,
}

impl View for SourceSet {
    type V = Files;

    open spec fn view(&self) -> Files {
        self.map()
    }
}

impl SourceSet {
    /// The text of each module in the set.
    pub closed spec fn map(&self) -> Files {
        files_of(self.files@)
    }

    /// The empty set.
    pub fn new() -> (set: SourceSet)
        ensures
            set@ == Map::<Seq<u8>, Seq<u8>>::empty(),
    {
        SourceSet { files: Vec::new() }
    }

    /// Puts the file of module `id` into the set, in place of any the set
    /// had for that module.
    pub fn insert(&mut self, id: ModuleId, text: Vec<u8>)
        ensures
            final(self)@ == old(self)@.insert(id@, text@),
    {
        let ghost before = self.files@;
        self.files.push(SourceFile { id, text });
        assert(self.files@.drop_last() =~= before);
    }

    /// Where the file of module `id` stands in the list.
    fn position(&self, id: &ModuleId) -> (r: Option<usize>)
        ensures
            match r {
                Some(k) => {
                    &&& k < self.files@.len()
                    &&& self.files@[k as int].id@ == id@
                    &&& file_text(self@, id@) == Some(self.files@[k as int].text@)
                },
                None => file_text(self@, id@) is None,
            },
    {
        let mut i: usize = self.files.len();
        assert(self.files@.take(i as int) =~= self.files@);
        while i > 0
            invariant
                i <= self.files.len(),
                file_text(self@, id@) == file_text(files_of(self.files@.take(i as int)), id@),
            decreases i,
        {
            assert(self.files@.take(i as int).drop_last() =~= self.files@.take(i - 1));
            if self.files[i - 1].id.same(id) {
                return Some(i - 1);
            }
            i -= 1;
        }
        None
    }

    /// The text of module `id`, if the set holds its file.
    pub fn get(&self, id: &ModuleId) -> (r: Option<&Vec<u8>>)
        ensures
            match r {
                Some(text) => file_text(self@, id@) == Some(text@),
                None => file_text(self@, id@) is None,
            },
    {
        match self.position(id) {
            Some(k) => Some(&self.files[k].text),
            None => None,
        }
    }
}

/// Resolves `reference`, written in the module `base`, to a module whose
/// file is in `sources`. The reference is unresolved where it names no
/// module below `root` or the set holds no file for the module named.
pub fn resolve_existing(
    sources: &SourceSet,
    base: &ModuleId,
    reference: &Vec<u8>,
    root: &ProjectRoot,
) -> (r: Result<ModuleId, LoadError>)
    ensures
        match r {
            Ok(id) => resolved(base@, reference@, root@) == Some(id@) && sources@.dom().contains(id@),
            Err(error) => {
                &&& is_missing(sources@, resolved(base@, reference@, root@))
                &&& error matches LoadError::UnresolvedPath { importer, reference: named, at }
                &&& importer@ == base@
                &&& named@ == reference@
                &&& at is None
            },
        },
{
    match crate::path::resolve(base, reference, root) {
        Some(id) => {
            if sources.position(&id).is_some() {
                return Ok(id);
            }
        },
        None => {},
    }
    Err(
        LoadError::UnresolvedPath {
            importer: base.duplicate(),
            reference: copy_bytes(reference),
            at: None,
        },
    )
}

/// Whether `graph` is the import graph of the module that `request` names
/// in `origin`, read from `files`.
pub open spec fn is_graph_of(
    graph: ModuleGraph,
    files: Files,
    root: Seq<u8>,
    origin: Seq<u8>,
    request: Seq<u8>,
) -> bool {
    &&& graph.wf()
    &&& graph.root() == root
    &&& graph.read_from(files)
    &&& resolved(origin, request, root) == Some(graph.entry())
}

/// Whether `files` admit an import graph for the module that `request`
/// names in `origin`.
pub open spec fn is_loadable(files: Files, root: Seq<u8>, origin: Seq<u8>, request: Seq<u8>) -> bool {
    exists|graph: ModuleGraph| #[trigger] is_graph_of(graph, files, root, origin, request)
}

/// In a graph read from `files`, what module `i` imports stands before it.
pub proof fn lemma_import_stands_before(graph: ModuleGraph, files: Files, i: int, to: Seq<u8>) -> (j:
    int)
    requires
        graph.wf(),
        graph.read_from(files),
        0 <= i < graph.nodes().len(),
        imports_module(files, graph.root(), graph.nodes()[i].id@, to),
    ensures
        0 <= j < i,
        graph.nodes()[j].id@ == to,
{
    let nodes = graph.nodes();
    let node = nodes[i];
    lemma_entry_at(nodes, i);
    assert(is_closed(nodes, i, graph.root()));
    assert(links_ok(nodes.take(i), node, graph.root()));
    let k = choose|k: int|
        0 <= k < parsed(files[node.id@]).imports.len() && resolved(
            node.id@,
            #[trigger] parsed(files[node.id@]).imports[k].from,
            graph.root(),
        ) == Some(to);
    let j = node.targets@[k] as int;
    assert(nodes.take(i)[j] == nodes[j]);
    j
}

/// In a graph read from `files`, a chain of imports that starts at module `i`
/// runs down the graph: its module `t` stands at least `t` places before `i`.
pub proof fn lemma_chain_descends(
    graph: ModuleGraph,
    files: Files,
    chain: Seq<Seq<u8>>,
    i: int,
    t: int,
) -> (j: int)
    requires
        graph.wf(),
        graph.read_from(files),
        is_chain(files, graph.root(), chain),
        0 <= i < graph.nodes().len(),
        0 <= t < chain.len(),
        graph.nodes()[i].id@ == chain[0],
    ensures
        0 <= j <= i - t,
        graph.nodes()[j].id@ == chain[t],
    decreases t,
{
    if t == 0 {
        i
    } else {
        let before = lemma_chain_descends(graph, files, chain, i, t - 1);
        assert(is_link(files, graph.root(), chain, t - 1));
        lemma_import_stands_before(graph, files, before, chain[t])
    }
}

/// In a graph read from `files`, whatever imports lead to from module `i`
/// is a module of the graph, at `i` or before it.
pub proof fn lemma_reached_is_node(graph: ModuleGraph, files: Files, i: int, to: Seq<u8>) -> (j: int)
    requires
        graph.wf(),
        graph.read_from(files),
        0 <= i < graph.nodes().len(),
        reaches(files, graph.root(), graph.nodes()[i].id@, to),
    ensures
        0 <= j <= i,
        graph.nodes()[j].id@ == to,
{
    let chain = choose|chain: Seq<Seq<u8>>|
        chain.len() >= 1 && chain[0] == graph.nodes()[i].id@ && chain.last() == to
            && #[trigger] is_chain(files, graph.root(), chain);
    lemma_chain_descends(graph, files, chain, i, chain.len() - 1)
}

/// A chain of imports with one more import at its end is a chain.
pub proof fn lemma_chain_extends(files: Files, root: Seq<u8>, chain: Seq<Seq<u8>>, to: Seq<u8>)
    requires
        chain.len() >= 1,
        is_chain(files, root, chain),
        imports_module(files, root, chain.last(), to),
    ensures
        is_chain(files, root, chain.push(to)),
{
    let longer = chain.push(to);
    assert forall|t: int| 0 <= t < longer.len() - 1 implies #[trigger] is_link(
        files,
        root,
        longer,
        t,
    ) by {
        if t < chain.len() - 1 {
            assert(is_link(files, root, chain, t));
        }
    }
}

/// In a graph read from `files`, imports lead from the entry module to
/// every module: the graph holds nothing that was not asked for.
pub proof fn lemma_node_is_reached(graph: ModuleGraph, files: Files, j: int)
    requires
        graph.wf(),
        graph.read_from(files),
        0 <= j < graph.nodes().len(),
    ensures
        reaches(files, graph.root(), graph.entry(), graph.nodes()[j].id@),
    decreases graph.nodes().len() - j,
{
    let nodes = graph.nodes();
    let root = graph.root();
    if j == nodes.len() - 1 {
        lemma_reaches_itself(files, root, graph.entry());
    } else {
        assert(crate::graph::is_imported(nodes, j));
        let i = choose|i: int|
            j + 1 <= i < nodes.len() && 0 <= i && crate::graph::points_to(#[trigger] nodes[i], j);
        lemma_node_is_reached(graph, files, i);
        let k = choose|k: int| 0 <= k < nodes[i].targets@.len() && #[trigger] nodes[i].targets@[k] == j;
        lemma_entry_at(nodes, i);
        assert(is_closed(nodes, i, root));
        assert(links_ok(nodes.take(i), nodes[i], root));
        assert(nodes.take(i)[j] == nodes[j]);
        assert(resolved(nodes[i].id@, parsed(files[nodes[i].id@]).imports[k].from, root) == Some(
            nodes[j].id@,
        ));
        assert(imports_module(files, root, nodes[i].id@, nodes[j].id@));
        let chain = choose|chain: Seq<Seq<u8>>|
            chain.len() >= 1 && chain[0] == graph.entry() && chain.last() == nodes[i].id@
                && #[trigger] is_chain(files, root, chain);
        lemma_chain_extends(files, root, chain, nodes[j].id@);
        let longer = chain.push(nodes[j].id@);
        assert(longer[0] == graph.entry() && longer.last() == nodes[j].id@);
    }
}

/// Whether `cycle` is a cycle of imports that the entry module leads to:
/// each of its modules imports the next, and the last the first.
pub open spec fn is_cycle(
    files: Files,
    root: Seq<u8>,
    origin: Seq<u8>,
    request: Seq<u8>,
    cycle: Seq<Seq<u8>>,
) -> bool {
    &&& cycle.len() >= 1
    &&& resolved(origin, request, root) matches Some(entry) && reaches(files, root, entry, cycle[0])
    &&& is_chain(files, root, cycle)
    &&& imports_module(files, root, cycle.last(), cycle[0])
}

/// Whether the entry module leads to a cycle of imports. A module that
/// imports itself is a cycle of one.
pub open spec fn has_cycle(files: Files, root: Seq<u8>, origin: Seq<u8>, request: Seq<u8>) -> bool {
    exists|cycle: Seq<Seq<u8>>| #[trigger] is_cycle(files, root, origin, request, cycle)
}

/// Whether nothing but a cycle can go wrong: the entry module is named by
/// the request, and every module that imports lead to exists, is well
/// formed, and has a file for each of its imports.
pub open spec fn is_intact(files: Files, root: Seq<u8>, origin: Seq<u8>, request: Seq<u8>) -> bool {
    resolved(origin, request, root) matches Some(entry) && forall|module: Seq<u8>| #[trigger]
        reaches(files, root, entry, module) ==> {
            &&& files.dom().contains(module)
            &&& is_well_formed(files[module])
            &&& forall|k: int|
                0 <= k < parsed(files[module]).imports.len() ==> !is_missing(
                    files,
                    resolved(module, (#[trigger] parsed(files[module]).imports[k]).from, root),
                )
        }
}

/// Every module leads to itself.
pub proof fn lemma_reaches_itself(files: Files, root: Seq<u8>, module: Seq<u8>)
    ensures
        reaches(files, root, module, module),
{
    let chain = seq![module];
    assert(is_chain(files, root, chain));
    assert(chain[0] == module && chain.last() == module);
}

/// Where nothing but a cycle can go wrong, a true finding is a cycle.
pub proof fn lemma_intact_fails_by_cycle(
    files: Files,
    root: Seq<u8>,
    origin: Seq<u8>,
    request: Seq<u8>,
    error: LoadError,
)
    requires
        is_intact(files, root, origin, request),
        is_genuine(files, root, origin, request, error),
    ensures
        error is ImportCycle,
{
    let entry = resolved(origin, request, root)->0;
    lemma_reaches_itself(files, root, entry);
    match error {
        LoadError::UnresolvedPath { importer, reference, at } => {
            if reaches(files, root, entry, importer@) && has_dead_import(
                files,
                root,
                importer@,
                reference@,
                place_view(at),
            ) {
                let place = place_view(at)->0;
                let k = choose|k: int|
                    0 <= k < parsed(files[importer@]).imports.len() && (#[trigger] parsed(
                        files[importer@],
                    ).imports[k]).from == reference@ && is_import_at(
                        parsed(files[importer@]).imports[k],
                        place,
                    );
                assert(!is_missing(
                    files,
                    resolved(importer@, parsed(files[importer@]).imports[k].from, root),
                ));
            }
        },
        LoadError::MalformedDirective { module, line, column } => {
            assert(reaches(files, root, entry, module@));
            assert(!crate::directive::is_malformed(split(files[module@], NEWLINE)[line - 1]));
        },
        LoadError::ImportCycle { cycle } => {},
    }
}

/// A cycle of imports that the entry module leads to rules a graph out.
pub proof fn lemma_cycle_excludes_graph(
    files: Files,
    root: Seq<u8>,
    origin: Seq<u8>,
    request: Seq<u8>,
    cycle: Seq<Seq<u8>>,
)
    requires
        is_cycle(files, root, origin, request, cycle),
    ensures
        !is_loadable(files, root, origin, request),
{
    assert forall|graph: ModuleGraph| !#[trigger] is_graph_of(
        graph,
        files,
        root,
        origin,
        request,
    ) by {
        if is_graph_of(graph, files, root, origin, request) {
            let nodes = graph.nodes();
            let first = lemma_reached_is_node(graph, files, nodes.len() - 1, cycle[0]);
            let last = lemma_chain_descends(graph, files, cycle, first, cycle.len() - 1);
            let again = lemma_import_stands_before(graph, files, last, cycle[0]);
            assert(nodes[again].id@ == nodes[first].id@);
            assert(again < first);
        }
    }
}

/// A true finding about `files` rules a graph out.
pub proof fn lemma_failure_excludes_graph(
    files: Files,
    root: Seq<u8>,
    origin: Seq<u8>,
    request: Seq<u8>,
    error: LoadError,
)
    requires
        is_genuine(files, root, origin, request, error),
    ensures
        !is_loadable(files, root, origin, request),
{
    match error {
        LoadError::ImportCycle { cycle } => {
            if resolved(origin, request, root) is Some {
                let ids = modules_of(cycle@);
                assert(ids[0] == cycle@[0].module@ && ids.last() == cycle@[cycle@.len()
                    - 1].module@);
                lemma_cycle_excludes_graph(files, root, origin, request, ids);
            }
        },
        _ => {},
    }
    assert forall|graph: ModuleGraph| !#[trigger] is_graph_of(
        graph,
        files,
        root,
        origin,
        request,
    ) by {
        if is_graph_of(graph, files, root, origin, request) {
            let nodes = graph.nodes();
            let top = nodes.len() - 1;
            lemma_entry_at(nodes, top);
            match error {
                LoadError::UnresolvedPath { importer, reference, at } => {
                    if reaches(files, root, graph.entry(), importer@) && has_dead_import(
                        files,
                        root,
                        importer@,
                        reference@,
                        place_view(at),
                    ) {
                        let place = place_view(at)->0;
                        let j = lemma_reached_is_node(graph, files, top, importer@);
                        let node = nodes[j];
                        lemma_entry_at(nodes, j);
                        assert(is_closed(nodes, j, root));
                        assert(links_ok(nodes.take(j), node, root));
                        let k = choose|k: int|
                            0 <= k < parsed(files[importer@]).imports.len() && (#[trigger] parsed(
                                files[importer@],
                            ).imports[k]).from == reference@ && is_import_at(
                                parsed(files[importer@]).imports[k],
                                place,
                            );
                        let t = node.targets@[k] as int;
                        assert(nodes.take(j)[t] == nodes[t]);
                        lemma_entry_at(nodes, t);
                    }
                },
                LoadError::MalformedDirective { module, line, column } => {
                    let j = lemma_reached_is_node(graph, files, top, module@);
                    lemma_entry_at(nodes, j);
                    assert(is_closed(nodes, j, root));
                    assert(node_parsed(nodes[j]));
                    assert(!crate::directive::is_malformed(split(files[module@], NEWLINE)[line - 1]));
                },
                LoadError::ImportCycle { cycle } => {
                    assert(is_loadable(files, root, origin, request));
                },
            }
        }
    }
}

/// The number of flags that are not set.
pub open spec fn count_free(flags: Seq<bool>) -> nat
    decreases flags.len(),
{
    if flags.len() == 0 {
        0
    } else {
        count_free(flags.drop_last()) + if flags.last() {
            0nat
        } else {
            1nat
        }
    }
}

/// Setting a flag that was free leaves one free flag fewer.
proof fn lemma_take_flag(flags: Seq<bool>, k: int)
    requires
        0 <= k < flags.len(),
        !flags[k],
    ensures
        count_free(flags.update(k, true)) + 1 == count_free(flags),
    decreases flags.len(),
{
    let set = flags.update(k, true);
    if k == flags.len() - 1 {
        assert(set.drop_last() =~= flags.drop_last());
    } else {
        lemma_take_flag(flags.drop_last(), k);
        assert(set.drop_last() =~= flags.drop_last().update(k, true));
    }
}

/// What holds of the outcome of loading, whatever the order in which the
/// imports were walked: it succeeds exactly when the files admit a graph;
/// an error is a true finding about the files; a cycle of imports always
/// ends in an error; and where nothing but a cycle can go wrong, the error
/// is the cycle.
pub open spec fn is_fair_outcome(
    files: Files,
    root: Seq<u8>,
    origin: Seq<u8>,
    request: Seq<u8>,
    error: Option<LoadError>,
) -> bool {
    &&& error is None <==> is_loadable(files, root, origin, request)
    &&& error matches Some(e) ==> is_genuine(files, root, origin, request, e)
    &&& has_cycle(files, root, origin, request) ==> error is Some
    &&& is_intact(files, root, origin, request) ==> error is None || error->0 is ImportCycle
}

/// The error of a result, if it is one.
pub open spec fn error_of<T>(r: Result<T, LoadError>) -> Option<LoadError> {
    match r {
        Ok(_) => None,
        Err(e) => Some(e),
    }
}

/// An outcome is fair when it is a graph where the files admit one and a
/// true finding where they do not.
pub proof fn lemma_fair_outcome(
    files: Files,
    root: Seq<u8>,
    origin: Seq<u8>,
    request: Seq<u8>,
    error: Option<LoadError>,
)
    requires
        error is None ==> is_loadable(files, root, origin, request),
        error matches Some(e) ==> is_genuine(files, root, origin, request, e),
    ensures
        is_fair_outcome(files, root, origin, request, error),
{
    match error {
        Some(e) => {
            lemma_failure_excludes_graph(files, root, origin, request, e);
            if is_intact(files, root, origin, request) {
                lemma_intact_fails_by_cycle(files, root, origin, request, e);
            }
        },
        None => {},
    }
    if has_cycle(files, root, origin, request) {
        let cycle = choose|cycle: Seq<Seq<u8>>| #[trigger] is_cycle(files, root, origin, request, cycle);
        lemma_cycle_excludes_graph(files, root, origin, request, cycle);
    }
}

/// Builds the import graph of the module that `request` names in the file
/// `origin`, reading every module from `sources`.
///
/// A graph is returned exactly when the files admit one. An error is a true
/// finding about the files.
pub fn build(sources: &SourceSet, root: &ProjectRoot, origin: &ModuleId, request: &Vec<u8>) -> (r:
    Result<ModuleGraph, LoadError>)
    ensures
        match r {
            Ok(graph) => is_graph_of(graph, sources@, root@, origin@, request@),
            Err(error) => is_genuine(sources@, root@, origin@, request@, error),
        },
        is_fair_outcome(sources@, root@, origin@, request@, error_of(r)),
{
    let first = Loader::start(root.duplicate(), origin.duplicate(), copy_bytes(request));
    let mut loader = match first {
        Progress::Need(loader) => loader,
        Progress::Failed(error) => {
            proof {
                lemma_fair_outcome(sources@, root@, origin@, request@, Some(error));
            }
            return Err(error);
        },
        Progress::Finished(graph) => {
            return Ok(graph);
        },
    };
    let mut taken: Vec<bool> = Vec::new();
    while taken.len() < sources.files.len()
        invariant
            taken.len() <= sources.files.len(),
            forall|k: int| 0 <= k < taken.len() ==> !taken[k],
        decreases sources.files.len() - taken.len(),
    {
        taken.push(false);
    }
    loop
        invariant
            loader.wf(),
            loader.root() == root@,
            loader.origin() == origin@,
            loader.request() == request@,
            all_from(loader.entries(), sources@),
            taken.len() == sources.files.len(),
            forall|k: int|
                0 <= k < taken.len() && #[trigger] taken[k] ==> loader.has(sources.files@[k].id@),
        decreases count_free(taken@),
    {
        let found = sources.position(loader.wanted_module());
        let ghost flags = taken@;
        let contents = match found {
            Some(k) => {
                proof {
                    loader.lemma_wanted_is_new();
                    lemma_take_flag(flags, k as int);
                }
                taken.set(k, true);
                Some(copy_bytes(&sources.files[k].text))
            },
            None => None,
        };
        let ghost before = loader;
        match loader.supply(contents) {
            Progress::Need(next) => {
                proof {
                    assert forall|k: int| 0 <= k < taken.len() && #[trigger] taken[k] implies next.has(
                        sources.files@[k].id@,
                    ) by {
                        let id = sources.files@[k].id@;
                        if flags[k] {
                            let text = choose|text: Seq<u8>| #[trigger]
                                before.entries().contains((id, text));
                            assert(next.entries().contains((id, text)));
                        } else {
                            assert(next.entries().contains((id, contents->0@)));
                        }
                    }
                }
                loader = next;
            },
            Progress::Finished(graph) => {
                proof {
                    assert(is_graph_of(graph, sources@, root@, origin@, request@));
                    lemma_fair_outcome(sources@, root@, origin@, request@, None);
                }
                return Ok(graph);
            },
            Progress::Failed(error) => {
                proof {
                    assert(is_genuine(sources@, root@, origin@, request@, error));
                    lemma_fair_outcome(sources@, root@, origin@, request@, Some(error));
                }
                return Err(error);
            },
        }
    }
}

} // verus!
