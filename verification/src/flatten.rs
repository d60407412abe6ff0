//! The flattener: the bodies of a graph's modules put one after the other,
//! dependencies first, with the bookkeeping that the validator reads.

use crate::directive::{find_name, has_name, Import, SymbolView, STAR};
use crate::graph::{is_closed, links_ok, ModuleGraph, ModuleNode};
use crate::path::ModuleId;
use crate::text::{append_bytes, copy_bytes, gather};
use vstd::prelude::*;

verus! {

/// The bodies of the first `n` modules, one after the other.
pub open spec fn merged(nodes: Seq<ModuleNode>, n: nat) -> Seq<u8> {
    gather(n, |i: int| nodes[i].module@.body)
}

/// Where the body of module `i` starts in the merged text.
pub open spec fn start_of(nodes: Seq<ModuleNode>, i: int) -> int {
    merged(nodes, i as nat).len() as int
}

/// An exported name and the module it comes from, as the contracts see it.
pub struct OriginView {
    pub name: Seq<u8>,
    pub module: Seq<u8>,
    pub line: nat,
    pub column: nat,
}

/// A named import as the contracts see it: who asks for the name, from
/// which module, where, and what the export sets say of it.
pub struct ImportRecordView {
    pub name: Seq<u8>,
    pub module: Seq<u8>,
    pub target: Seq<u8>,
    pub line: nat,
    pub column: nat,
    pub declared: bool,
    pub elsewhere: bool,
    pub wildcard: bool,
}

/// The name `*`.
pub open spec fn star() -> Seq<u8> {
    seq![STAR]
}

/// Whether module `t` exports `name`.
pub open spec fn is_exported_by(nodes: Seq<ModuleNode>, t: int, name: Seq<u8>) -> bool {
    has_name(nodes[t].module@.exports, name)
}

/// Whether one of the modules that module `i` imports exports `name`.
pub open spec fn is_exported_to(nodes: Seq<ModuleNode>, i: int, name: Seq<u8>) -> bool {
    exists|k: int|
        0 <= k < nodes[i].targets@.len() && is_exported_by(
            nodes,
            #[trigger] nodes[i].targets@[k] as int,
            name,
        )
}

/// Whether the symbols hold the wildcard.
pub open spec fn holds_star(symbols: Seq<SymbolView>) -> bool {
    exists|j: int| 0 <= j < symbols.len() && (#[trigger] symbols[j]).name == star()
}

/// The names that module `i` exports, each with its origin.
pub open spec fn origins_at(nodes: Seq<ModuleNode>, i: int) -> Seq<OriginView> {
    Seq::new(
        nodes[i].module@.exports.len(),
        |e: int|
            OriginView {
                name: nodes[i].module@.exports[e].name,
                module: nodes[i].id@,
                line: nodes[i].module@.exports[e].line,
                column: nodes[i].module@.exports[e].column,
            },
    )
}

/// The exported names of the first `n` modules.
pub open spec fn origins(nodes: Seq<ModuleNode>, n: nat) -> Seq<OriginView> {
    gather(n, |i: int| origins_at(nodes, i))
}

/// The record of symbol `j` of import `k` of module `i`: one record for a
/// name, none for the wildcard.
pub open spec fn record_at(nodes: Seq<ModuleNode>, i: int, k: int, j: int) -> Seq<ImportRecordView> {
    let import = nodes[i].module@.imports[k];
    let symbol = import.symbols[j];
    if symbol.name == star() {
        Seq::empty()
    } else {
        seq![
            ImportRecordView {
                name: symbol.name,
                module: nodes[i].id@,
                target: nodes[nodes[i].targets@[k] as int].id@,
                line: symbol.line,
                column: symbol.column,
                declared: is_exported_by(nodes, nodes[i].targets@[k] as int, symbol.name),
                elsewhere: is_exported_to(nodes, i, symbol.name),
                wildcard: holds_star(import.symbols),
            },
        ]
    }
}

/// The records of the first `n` symbols of import `k` of module `i`.
pub open spec fn symbol_records(nodes: Seq<ModuleNode>, i: int, k: int, n: nat) -> Seq<
    ImportRecordView,
> {
    gather(n, |j: int| record_at(nodes, i, k, j))
}

/// The records of the first `n` imports of module `i`.
pub open spec fn import_records(nodes: Seq<ModuleNode>, i: int, n: nat) -> Seq<ImportRecordView> {
    gather(n, |k: int| symbol_records(nodes, i, k, nodes[i].module@.imports[k].symbols.len()))
}

/// The records of the first `n` modules.
pub open spec fn records(nodes: Seq<ModuleNode>, n: nat) -> Seq<ImportRecordView> {
    gather(n, |i: int| import_records(nodes, i, nodes[i].module@.imports.len()))
}

/// An exported name and where it comes from: its module, and the place of
/// the name in that module's file.
#[derive(Debug, PartialEq, Eq)]
pub struct Origin {
    pub name: Vec<u8>,
    pub module: ModuleId,
    pub line: usize,
    pub column: usize,
}

impl View for Origin {
    type V = OriginView;

    open spec fn view(&self) -> OriginView {
        OriginView {
            name: self.name@,
            module: self.module@,
            line: self.line as nat,
            column: self.column as nat,
        }
    }
}

/// A named import: the name, the module that asks for it and the module
/// asked, the place of the name, and whether the name is
/// exported by the module asked (`declared`), by any module that the asking
/// module imports (`elsewhere`), and whether the import also holds the
/// wildcard.
#[derive(Debug, PartialEq, Eq)]
pub struct ImportRecord {
    pub name: Vec<u8>,
    pub module: ModuleId,
    pub target: ModuleId,
    pub line: usize,
    pub column: usize,
    pub declared: bool,
    pub elsewhere: bool,
    pub wildcard: bool,
}

impl View for ImportRecord {
    type V = ImportRecordView;

    open spec fn view(&self) -> ImportRecordView {
        ImportRecordView {
            name: self.name@,
            module: self.module@,
            target: self.target@,
            line: self.line as nat,
            column: self.column as nat,
            declared: self.declared,
            elsewhere: self.elsewhere,
            wildcard: self.wildcard,
        }
    }
}

/// Origins as the contracts see them.
pub open spec fn origin_views(list: Seq<Origin>) -> Seq<OriginView> {
    Seq::new(list.len(), |i: int| list[i]@)
}

/// Records as the contracts see them.
pub open spec fn record_views(list: Seq<ImportRecord>) -> Seq<ImportRecordView> {
    Seq::new(list.len(), |i: int| list[i]@)
}

/// Offsets as the contracts see them.
pub open spec fn offsets(list: Seq<usize>) -> Seq<int> {
    Seq::new(list.len(), |i: int| list[i] as int)
}

/// A graph merged into one text.
pub struct FlattenedUnit {
    graph: ModuleGraph,
    text: Vec<u8>,
    starts: Vec<usize>,
    exports: Vec<Origin>,
    imports: Vec<ImportRecord>,
}

impl FlattenedUnit {
    /// The graph that was merged.
    pub closed spec fn graph(&self) -> ModuleGraph {
        self.graph
    }

    /// The merged text.
    pub closed spec fn text(&self) -> Seq<u8> {
        self.text@
    }

    /// For each module, where its body starts in the text.
    pub closed spec fn starts(&self) -> Seq<int> {
        offsets(self.starts@)
    }

    /// Every exported name with its origin.
    pub closed spec fn exports(&self) -> Seq<OriginView> {
        origin_views(self.exports@)
    }

    /// Every named import with what the export sets say of it.
    pub closed spec fn imports(&self) -> Seq<ImportRecordView> {
        record_views(self.imports@)
    }

    /// What holds of every unit: its graph is sound; its text is the bodies
    /// of the graph's modules in the graph's order, each once; and its
    /// bookkeeping is that of the graph.
    pub open spec fn wf(&self) -> bool {
        let nodes = self.graph().nodes();
        &&& self.graph().wf()
        &&& self.text() == merged(nodes, nodes.len())
        &&& self.starts() == Seq::new(nodes.len(), |i: int| start_of(nodes, i))
        &&& self.exports() == origins(nodes, nodes.len())
        &&& self.imports() == records(nodes, nodes.len())
    }

    #[verifier::type_invariant]
    spec fn holds(&self) -> bool {
        self.wf()
    }

    /// The graph that was merged.
    pub fn module_graph(&self) -> (graph: &ModuleGraph)
        ensures
            *graph == self.graph(),
            self.wf(),
    {
        proof {
            use_type_invariant(self);
        }
        &self.graph
    }

    /// The merged text.
    pub fn merged_text(&self) -> (text: &Vec<u8>)
        ensures
            text@ == self.text(),
            self.wf(),
    {
        proof {
            use_type_invariant(self);
        }
        &self.text
    }

    /// For each module, where its body starts in the text.
    pub fn body_starts(&self) -> (starts: &Vec<usize>)
        ensures
            offsets(starts@) == self.starts(),
            self.wf(),
    {
        proof {
            use_type_invariant(self);
        }
        &self.starts
    }

    /// Every exported name with its origin.
    pub fn exported_names(&self) -> (exports: &Vec<Origin>)
        ensures
            origin_views(exports@) == self.exports(),
            self.wf(),
    {
        proof {
            use_type_invariant(self);
        }
        &self.exports
    }

    /// Every named import with what the export sets say of it.
    pub fn named_imports(&self) -> (imports: &Vec<ImportRecord>)
        ensures
            record_views(imports@) == self.imports(),
            self.wf(),
    {
        proof {
            use_type_invariant(self);
        }
        &self.imports
    }
}

/// Whether `name` is the wildcard.
pub fn is_star(name: &Vec<u8>) -> (r: bool)
    ensures
        r == (name@ == star()),
{
    let r = name.len() == 1 && name[0] == STAR;
    assert(r ==> name@ =~= star());
    r
}

/// Whether the import holds the wildcard.
fn has_star(import: &Import) -> (r: bool)
    ensures
        r == holds_star(import@.symbols),
{
    let mut j: usize = 0;
    while j < import.symbols.len()
        invariant
            j <= import.symbols.len(),
            forall|x: int| 0 <= x < j ==> (#[trigger] import@.symbols[x]).name != star(),
        decreases import.symbols.len() - j,
    {
        if is_star(&import.symbols[j].name) {
            assert(import@.symbols[j as int].name == star());
            return true;
        }
        j += 1;
    }
    false
}

/// Whether module `t` of the graph exports `name`.
fn exported_by(graph: &ModuleGraph, t: usize, name: &Vec<u8>) -> (r: bool)
    requires
        t < graph.nodes().len(),
    ensures
        r == is_exported_by(graph.nodes(), t as int, name@),
{
    let node = graph.node(t);
    match find_name(&node.module.exports, name) {
        Some(e) => {
            assert(node.module@.exports[e as int].name == name@);
            true
        },
        None => false,
    }
}

/// Whether a module that module `i` imports exports `name`.
fn exported_to(graph: &ModuleGraph, i: usize, name: &Vec<u8>) -> (r: bool)
    requires
        i < graph.nodes().len(),
    ensures
        r == is_exported_to(graph.nodes(), i as int, name@),
{
    let node = graph.node(i);
    proof {
        assert(is_closed(graph.nodes(), i as int, graph.root()));
    }
    let mut k: usize = 0;
    while k < node.targets.len()
        invariant
            k <= node.targets.len(),
            i < graph.nodes().len(),
            *node == graph.nodes()[i as int],
            links_ok(graph.nodes().take(i as int), *node, graph.root()),
            forall|x: int|
                0 <= x < k ==> !is_exported_by(
                    graph.nodes(),
                    #[trigger] node.targets@[x] as int,
                    name@,
                ),
        decreases node.targets.len() - k,
    {
        let t = node.targets[k];
        assert(0 <= node.targets@[k as int] < i);
        if exported_by(graph, t, name) {
            return true;
        }
        k += 1;
    }
    false
}

/// What one more symbol, import or module adds to the records.
proof fn lemma_records_step(nodes: Seq<ModuleNode>, i: int, k: int, j: nat)
    ensures
        symbol_records(nodes, i, k, j + 1) == symbol_records(nodes, i, k, j) + record_at(
            nodes,
            i,
            k,
            j as int,
        ),
        k >= 0 ==> import_records(nodes, i, (k + 1) as nat) == import_records(nodes, i, k as nat)
            + symbol_records(nodes, i, k, nodes[i].module@.imports[k].symbols.len()),
        i >= 0 ==> records(nodes, (i + 1) as nat) == records(nodes, i as nat) + import_records(
            nodes,
            i,
            nodes[i].module@.imports.len(),
        ),
        i >= 0 ==> origins(nodes, (i + 1) as nat) == origins(nodes, i as nat) + origins_at(nodes, i),
        i >= 0 ==> merged(nodes, (i + 1) as nat) == merged(nodes, i as nat) + nodes[i].module@.body,
{
}

/// Adds the records of import `k` of module `i`.
fn record_import(graph: &ModuleGraph, i: usize, k: usize, out: &mut Vec<ImportRecord>)
    requires
        i < graph.nodes().len(),
        k < graph.nodes()[i as int].module.imports@.len(),
    ensures
        record_views(final(out)@) == record_views(old(out)@) + symbol_records(
            graph.nodes(),
            i as int,
            k as int,
            graph.nodes()[i as int].module@.imports[k as int].symbols.len(),
        ),
{
    let node = graph.node(i);
    let ghost nodes = graph.nodes();
    proof {
        assert(is_closed(nodes, i as int, graph.root()));
        assert(links_ok(nodes.take(i as int), *node, graph.root()));
    }
    let import = &node.module.imports[k];
    assert(import@ == node.module@.imports[k as int]);
    let target = node.targets[k];
    assert(0 <= node.targets@[k as int] < i);
    let wildcard = has_star(import);
    let ghost start = record_views(out@);
    let mut j: usize = 0;
    assert(record_views(out@) =~= start + symbol_records(nodes, i as int, k as int, 0));
    while j < import.symbols.len()
        invariant
            j <= import.symbols.len(),
            i < nodes.len(),
            nodes == graph.nodes(),
            *node == nodes[i as int],
            import@ == node.module@.imports[k as int],
            target == node.targets@[k as int],
            target < i,
            wildcard == holds_star(import@.symbols),
            record_views(out@) == start + symbol_records(nodes, i as int, k as int, j as nat),
        decreases import.symbols.len() - j,
    {
        let symbol = &import.symbols[j];
        assert(symbol@ == import@.symbols[j as int]);
        proof {
            lemma_records_step(nodes, i as int, k as int, j as nat);
        }
        if !is_star(&symbol.name) {
            let record = ImportRecord {
                name: copy_bytes(&symbol.name),
                module: node.id.duplicate(),
                target: graph.node(target).id.duplicate(),
                line: symbol.line,
                column: symbol.column,
                declared: exported_by(graph, target, &symbol.name),
                elsewhere: exported_to(graph, i, &symbol.name),
                wildcard,
            };
            let ghost before = record_views(out@);
            out.push(record);
            assert(record_views(out@) =~= before.push(record@));
            assert(record_views(out@) =~= start + symbol_records(
                nodes,
                i as int,
                k as int,
                (j + 1) as nat,
            ));
        } else {
            assert(record_views(out@) =~= start + symbol_records(
                nodes,
                i as int,
                k as int,
                (j + 1) as nat,
            ));
        }
        j += 1;
    }
}

/// Adds the records of module `i`.
fn record_module(graph: &ModuleGraph, i: usize, out: &mut Vec<ImportRecord>)
    requires
        i < graph.nodes().len(),
    ensures
        record_views(final(out)@) == record_views(old(out)@) + import_records(
            graph.nodes(),
            i as int,
            graph.nodes()[i as int].module@.imports.len(),
        ),
{
    let node = graph.node(i);
    let ghost nodes = graph.nodes();
    let ghost start = record_views(out@);
    let mut k: usize = 0;
    assert(record_views(out@) =~= start + import_records(nodes, i as int, 0));
    while k < node.module.imports.len()
        invariant
            k <= node.module.imports.len(),
            i < nodes.len(),
            nodes == graph.nodes(),
            *node == nodes[i as int],
            record_views(out@) == start + import_records(nodes, i as int, k as nat),
        decreases node.module.imports.len() - k,
    {
        proof {
            lemma_records_step(nodes, i as int, k as int, 0);
        }
        record_import(graph, i, k, out);
        assert(record_views(out@) =~= start + import_records(nodes, i as int, (k + 1) as nat));
        k += 1;
    }
}

/// Adds the exported names of module `i`.
fn record_exports(graph: &ModuleGraph, i: usize, out: &mut Vec<Origin>)
    requires
        i < graph.nodes().len(),
    ensures
        origin_views(final(out)@) == origin_views(old(out)@) + origins_at(graph.nodes(), i as int),
{
    let node = graph.node(i);
    let ghost nodes = graph.nodes();
    let ghost start = origin_views(out@);
    let mut e: usize = 0;
    assert(origin_views(out@) =~= start + origins_at(nodes, i as int).take(0));
    while e < node.module.exports.len()
        invariant
            e <= node.module.exports.len(),
            i < nodes.len(),
            *node == nodes[i as int],
            origin_views(out@) == start + origins_at(nodes, i as int).take(e as int),
        decreases node.module.exports.len() - e,
    {
        let symbol = &node.module.exports[e];
        assert(symbol@ == node.module@.exports[e as int]);
        let origin = Origin {
            name: copy_bytes(&symbol.name),
            module: node.id.duplicate(),
            line: symbol.line,
            column: symbol.column,
        };
        let ghost before = origin_views(out@);
        out.push(origin);
        assert(origin_views(out@) =~= before.push(origin@));
        assert(origin_views(out@) =~= start + origins_at(nodes, i as int).take(e + 1));
        e += 1;
    }
    assert(origins_at(nodes, i as int).take(e as int) =~= origins_at(nodes, i as int));
}

/// Merges the graph into one text: the body of every module, each once, a
/// module after every module that it imports.
pub fn flatten(graph: ModuleGraph) -> (unit: FlattenedUnit)
    ensures
        unit.wf(),
        unit.graph() == graph,
        unit.text() == merged(graph.nodes(), graph.nodes().len()),
{
    let n = graph.len();
    let ghost nodes = graph.nodes();
    let mut text: Vec<u8> = Vec::new();
    let mut starts: Vec<usize> = Vec::new();
    let mut exports: Vec<Origin> = Vec::new();
    let mut imports: Vec<ImportRecord> = Vec::new();
    let mut i: usize = 0;
    assert(offsets(starts@) =~= Seq::new(0, |x: int| start_of(nodes, x)));
    assert(origin_views(exports@) =~= origins(nodes, 0));
    assert(record_views(imports@) =~= records(nodes, 0));
    while i < n
        invariant
            i <= n == nodes.len(),
            nodes == graph.nodes(),
            graph.wf(),
            text@ == merged(nodes, i as nat),
            offsets(starts@) == Seq::new(i as nat, |x: int| start_of(nodes, x)),
            origin_views(exports@) == origins(nodes, i as nat),
            record_views(imports@) == records(nodes, i as nat),
        decreases n - i,
    {
        proof {
            lemma_records_step(nodes, i as int, 0, 0);
        }
        let node = graph.node(i);
        let ghost before = offsets(starts@);
        starts.push(text.len());
        assert(offsets(starts@) =~= before.push(start_of(nodes, i as int)));
        assert(offsets(starts@) =~= Seq::new((i + 1) as nat, |x: int| start_of(nodes, x)));
        append_bytes(&mut text, &node.module.body);
        record_exports(&graph, i, &mut exports);
        record_module(&graph, i, &mut imports);
        i += 1;
    }
    FlattenedUnit { graph, text, starts, exports, imports }
}

} // verus!
