//! What holds of every graph, every merged text and every list of
//! findings.

use crate::directive::{is_directive_line, lemma_absorb_distinct, unique_names};
use crate::flatten::{
    import_records, is_exported_by, is_exported_to, merged, origins, origins_at, record_at, records,
    star, start_of, symbol_records, ImportRecordView, OriginView,
};
use crate::graph::{import_target, is_closed, links_ok, points_to, ModuleGraph, ModuleNode};
use crate::locate::{lemma_segment, lemma_starts_ordered};
use crate::path::LocationView;
use crate::parse::{exported_in, lemma_plain_text_is_body};
use crate::text::{lemma_gather_contains, lemma_gather_index, lemma_gather_same, split, NEWLINE};
use crate::validate::{
    clash, clashes_with, complaint, diagnostics, duplicates, is_undeclared, origin_place,
    undeclared, DiagnosticView, Finding, WildcardPolicy,
};
use vstd::prelude::*;

verus! {

/// A module stands in a graph once, however many modules import it.
pub proof fn lemma_each_module_once(graph: ModuleGraph, i: int, j: int)
    requires
        graph.wf(),
        0 <= i < graph.nodes().len(),
        0 <= j < graph.nodes().len(),
        graph.nodes()[i].id@ == graph.nodes()[j].id@,
    ensures
        i == j,
{
}

/// Two imports that name the same module point to the same node: a module
/// that is reached on two ways is shared, not read twice.
pub proof fn lemma_shared_import_is_one_node(graph: ModuleGraph, a: int, ka: int, b: int, kb: int)
    requires
        graph.wf(),
        0 <= a < graph.nodes().len(),
        0 <= b < graph.nodes().len(),
        0 <= ka < graph.nodes()[a].targets@.len(),
        0 <= kb < graph.nodes()[b].targets@.len(),
        import_target(graph.nodes()[a], ka, graph.root()) == import_target(
            graph.nodes()[b],
            kb,
            graph.root(),
        ),
    ensures
        graph.nodes()[a].targets@[ka] == graph.nodes()[b].targets@[kb],
{
    let nodes = graph.nodes();
    assert(is_closed(nodes, a, graph.root()));
    assert(is_closed(nodes, b, graph.root()));
    let ta = nodes[a].targets@[ka] as int;
    let tb = nodes[b].targets@[kb] as int;
    assert(nodes.take(a)[ta] == nodes[ta]);
    assert(nodes.take(b)[tb] == nodes[tb]);
    lemma_each_module_once(graph, ta, tb);
}

/// In the merged text of a graph, the body of a module that is imported ends
/// before the body of the module that imports it starts.
pub proof fn lemma_imports_come_first(graph: ModuleGraph, i: int, k: int)
    requires
        graph.wf(),
        0 <= i < graph.nodes().len(),
        0 <= k < graph.nodes()[i].targets@.len(),
    ensures
        0 <= graph.nodes()[i].targets@[k] < i,
        start_of(graph.nodes(), graph.nodes()[i].targets@[k] + 1) <= start_of(graph.nodes(), i),
{
    let nodes = graph.nodes();
    assert(is_closed(nodes, i, graph.root()));
    assert(links_ok(nodes.take(i), nodes[i], graph.root()));
    let t = nodes[i].targets@[k] as int;
    lemma_starts_ordered(nodes, t + 1, i);
}

/// A module without directive lines stands in the merged text as it is in
/// its file.
pub proof fn lemma_plain_module_is_verbatim(graph: ModuleGraph, i: int)
    requires
        graph.wf(),
        0 <= i < graph.nodes().len(),
        forall|l: int|
            0 <= l < split(graph.nodes()[i].source@, NEWLINE).len() ==> !is_directive_line(
                #[trigger] split(graph.nodes()[i].source@, NEWLINE)[l],
            ),
    ensures
        graph.nodes()[i].module@.body == graph.nodes()[i].source@,
        merged(graph.nodes(), graph.nodes().len()).subrange(
            start_of(graph.nodes(), i),
            start_of(graph.nodes(), i + 1),
        ) == graph.nodes()[i].source@,
{
    let nodes = graph.nodes();
    assert(is_closed(nodes, i, graph.root()));
    lemma_plain_text_is_body(nodes[i].source@);
    lemma_segment(nodes, i, nodes.len() as int);
}

/// Two exports of one name come from two modules: a module exports a name
/// once, so a name that stands twice among the exports of a graph is
/// exported by two of its modules.
pub proof fn lemma_duplicate_names_two_modules(graph: ModuleGraph, a: int, b: int)
    requires
        graph.wf(),
        0 <= a < b < origins(graph.nodes(), graph.nodes().len()).len(),
        origins(graph.nodes(), graph.nodes().len())[a].name == origins(
            graph.nodes(),
            graph.nodes().len(),
        )[b].name,
    ensures
        origins(graph.nodes(), graph.nodes().len())[a].module != origins(
            graph.nodes(),
            graph.nodes().len(),
        )[b].module,
{
    let nodes = graph.nodes();
    let n = nodes.len();
    let each = |i: int| origins_at(nodes, i);
    let (ia, ea) = lemma_gather_index(n, each, a);
    let (ib, eb) = lemma_gather_index(n, each, b);
    if ia == ib {
        assert(is_closed(nodes, ia, graph.root()));
        let written = exported_in(split(nodes[ia].source@, NEWLINE), split(nodes[ia].source@, NEWLINE).len());
        lemma_absorb_distinct(Seq::empty(), written);
        assert(nodes[ia].module@.exports == unique_names(written));
        assert(ea < eb);
        assert(nodes[ia].module@.exports[ea].name != nodes[ia].module@.exports[eb].name);
    } else {
        assert(nodes[ia].id@ != nodes[ib].id@);
    }
}

/// The finding for two exports of one name.
pub open spec fn duplicate_of(exports: Seq<OriginView>, a: int, b: int) -> DiagnosticView {
    DiagnosticView::DuplicateExport {
        name: exports[b].name,
        first: origin_place(exports[a]),
        second: origin_place(exports[b]),
    }
}

/// A finding is among the duplicates exactly when it names two exports of
/// the same name, the earlier one first.
pub proof fn lemma_duplicates_are_exact(exports: Seq<OriginView>, found: DiagnosticView)
    ensures
        duplicates(exports, exports.len()).contains(found) <==> exists|a: int, b: int|
            0 <= a < b < exports.len() && exports[a].name == exports[b].name && found
                == #[trigger] duplicate_of(exports, a, b),
{
    let n = exports.len();
    let outer = |b: int| clashes_with(exports, b, b as nat);
    lemma_gather_contains(n, outer, found);
    if duplicates(exports, n).contains(found) {
        let b = choose|b: int| 0 <= b < n && #[trigger] outer(b).contains(found);
        let inner = |a: int| clash(exports, a, b);
        lemma_gather_contains(b as nat, inner, found);
        let a = choose|a: int| 0 <= a < b && #[trigger] inner(a).contains(found);
        assert(clash(exports, a, b).contains(found));
        assert(found == duplicate_of(exports, a, b));
    }
    if exists|a: int, b: int|
        0 <= a < b < exports.len() && exports[a].name == exports[b].name && found
            == #[trigger] duplicate_of(exports, a, b) {
        let (a, b) = choose|a: int, b: int|
            0 <= a < b < exports.len() && exports[a].name == exports[b].name && found
                == #[trigger] duplicate_of(exports, a, b);
        let inner = |a: int| clash(exports, a, b);
        assert(clash(exports, a, b)[0] == found);
        assert(inner(a).contains(found));
        lemma_gather_contains(b as nat, inner, found);
        assert(outer(b).contains(found));
    }
}

/// The finding for a named import that is not borne out.
pub open spec fn complaint_of(record: ImportRecordView) -> DiagnosticView {
    DiagnosticView::UndeclaredImport {
        name: record.name,
        target: record.target,
        at: LocationView { module: record.module, line: record.line, column: record.column },
    }
}

/// A finding is among the undeclared imports exactly when it is the
/// finding of a named import that the export sets do not bear out.
pub proof fn lemma_undeclared_are_exact(
    records: Seq<ImportRecordView>,
    policy: WildcardPolicy,
    found: DiagnosticView,
)
    ensures
        undeclared(records, policy, records.len()).contains(found) <==> exists|x: int|
            0 <= x < records.len() && is_undeclared(#[trigger] records[x], policy) && found
                == complaint_of(records[x]),
{
    let n = records.len();
    let each = |x: int| complaint(records[x], policy);
    lemma_gather_contains(n, each, found);
    if undeclared(records, policy, n).contains(found) {
        let x = choose|x: int| 0 <= x < n && #[trigger] each(x).contains(found);
        assert(complaint(records[x], policy).contains(found));
        assert(found == complaint_of(records[x]));
    }
    if exists|x: int|
        0 <= x < records.len() && is_undeclared(#[trigger] records[x], policy) && found
            == complaint_of(records[x]) {
        let x = choose|x: int|
            0 <= x < records.len() && is_undeclared(#[trigger] records[x], policy) && found
                == complaint_of(records[x]);
        assert(complaint(records[x], policy)[0] == found);
        assert(each(x).contains(found));
    }
}

/// The findings for two lists of named imports, one after the other, are
/// those of the first and then those of the second.
pub proof fn lemma_undeclared_of_both(
    a: Seq<ImportRecordView>,
    b: Seq<ImportRecordView>,
    policy: WildcardPolicy,
)
    ensures
        undeclared(a + b, policy, (a + b).len()) == undeclared(a, policy, a.len()) + undeclared(
            b,
            policy,
            b.len(),
        ),
    decreases b.len(),
{
    if b.len() == 0 {
        assert(a + b =~= a);
        assert(undeclared(a + b, policy, (a + b).len()) =~= undeclared(a, policy, a.len())
            + undeclared(b, policy, b.len()));
    } else {
        let front = b.drop_last();
        let n = (a + b).len();
        lemma_undeclared_of_both(a, front, policy);
        assert((a + front).len() == n - 1);
        lemma_gather_same(
            (n - 1) as nat,
            |x: int| complaint((a + b)[x], policy),
            |x: int| complaint((a + front)[x], policy),
        );
        lemma_gather_same(
            front.len(),
            |x: int| complaint(b[x], policy),
            |x: int| complaint(front[x], policy),
        );
        assert((a + b)[n - 1] == b[b.len() - 1]);
        assert(undeclared(a + b, policy, n) =~= undeclared(a, policy, a.len()) + undeclared(
            b,
            policy,
            b.len(),
        ));
    }
}

/// Named imports that the export sets bear out give no finding.
pub proof fn lemma_borne_out_is_silent(
    list: Seq<ImportRecordView>,
    policy: WildcardPolicy,
    n: nat,
)
    requires
        n <= list.len(),
        forall|x: int| 0 <= x < list.len() ==> !is_undeclared(#[trigger] list[x], policy),
    ensures
        undeclared(list, policy, n) == Seq::<DiagnosticView>::empty(),
    decreases n,
{
    if n > 0 {
        lemma_borne_out_is_silent(list, policy, (n - 1) as nat);
        assert(!is_undeclared(list[n - 1], policy));
        assert(undeclared(list, policy, n) =~= Seq::<DiagnosticView>::empty());
    }
}

/// Whether the modules `two` are the modules `one` but for module `y`,
/// which in `two` has one more import behind the others: an import from
/// module `tx`, which `y` imports already, of names that `tx` exports. What
/// the modules export and where they stand is the same; the bodies may
/// differ.
pub open spec fn is_with_one_more_import(
    one: Seq<ModuleNode>,
    two: Seq<ModuleNode>,
    y: int,
    tx: int,
) -> bool {
    let extra = two[y].module@.imports.last();
    &&& one.len() == two.len()
    &&& 0 <= y < one.len()
    &&& 0 <= tx < one.len()
    &&& forall|i: int|
        0 <= i < one.len() ==> (#[trigger] two[i]).id@ == one[i].id@ && two[i].module@.exports
            == one[i].module@.exports
    &&& forall|i: int|
        0 <= i < one.len() && i != y ==> (#[trigger] two[i]).module@.imports
            == one[i].module@.imports && two[i].targets@ == one[i].targets@
    &&& two[y].module@.imports.len() == one[y].module@.imports.len() + 1
    &&& two[y].module@.imports.drop_last() == one[y].module@.imports
    &&& two[y].targets@.len() == one[y].targets@.len() + 1
    &&& two[y].targets@.drop_last() == one[y].targets@
    &&& two[y].targets@.last() == tx
    &&& points_to(one[y], tx)
    &&& forall|j: int|
        0 <= j < extra.symbols.len() ==> (#[trigger] extra.symbols[j]).name == star()
            || is_exported_by(one, tx, extra.symbols[j].name)
}

/// Whether every target of every module is a module of the list and every
/// import has its target.
pub open spec fn has_targets(nodes: Seq<ModuleNode>) -> bool {
    forall|i: int|
        0 <= i < nodes.len() ==> (#[trigger] nodes[i]).targets@.len()
            == nodes[i].module@.imports.len() && forall|k: int|
            0 <= k < nodes[i].targets@.len() ==> 0 <= #[trigger] nodes[i].targets@[k] < nodes.len()
}

/// The targets of a graph are modules of the graph.
pub proof fn lemma_graph_has_targets(graph: ModuleGraph)
    requires
        graph.wf(),
    ensures
        has_targets(graph.nodes()),
{
    let nodes = graph.nodes();
    assert forall|i: int| 0 <= i < nodes.len() implies (#[trigger] nodes[i]).targets@.len()
        == nodes[i].module@.imports.len() && forall|k: int|
        0 <= k < nodes[i].targets@.len() ==> 0 <= #[trigger] nodes[i].targets@[k] < nodes.len() by {
        assert(is_closed(nodes, i, graph.root()));
        assert(links_ok(nodes.take(i), nodes[i], graph.root()));
    }
}

/// With one more import from a module that is imported already, every
/// module is handed the same names as before.
proof fn lemma_same_names_in_reach(
    one: Seq<ModuleNode>,
    two: Seq<ModuleNode>,
    y: int,
    tx: int,
    i: int,
    name: Seq<u8>,
)
    requires
        is_with_one_more_import(one, two, y, tx),
        has_targets(one),
        has_targets(two),
        0 <= i < one.len(),
    ensures
        is_exported_to(two, i, name) == is_exported_to(one, i, name),
{
    let m = one[i].targets@.len() as int;
    if is_exported_to(two, i, name) {
        let k = choose|k: int|
            0 <= k < two[i].targets@.len() && is_exported_by(
                two,
                #[trigger] two[i].targets@[k] as int,
                name,
            );
        let t = two[i].targets@[k] as int;
        assert(two[t].module@.exports == one[t].module@.exports);
        if i == y && k == m {
            let k0 = choose|k0: int| 0 <= k0 < one[y].targets@.len() && #[trigger] one[y].targets@[k0] == tx;
            assert(is_exported_by(one, one[y].targets@[k0] as int, name));
        } else {
            if i == y {
                assert(two[y].targets@.drop_last()[k] == one[y].targets@[k]);
            }
            assert(is_exported_by(one, one[i].targets@[k] as int, name));
        }
    }
    if is_exported_to(one, i, name) {
        let k = choose|k: int|
            0 <= k < one[i].targets@.len() && is_exported_by(
                one,
                #[trigger] one[i].targets@[k] as int,
                name,
            );
        let t = one[i].targets@[k] as int;
        assert(two[t].module@.exports == one[t].module@.exports);
        if i == y {
            assert(two[y].targets@.drop_last()[k] == one[y].targets@[k]);
        }
        assert(is_exported_by(two, two[i].targets@[k] as int, name));
    }
}

/// With one more import behind the others, the imports that were there
/// have the records they had.
proof fn lemma_same_import_records(
    one: Seq<ModuleNode>,
    two: Seq<ModuleNode>,
    y: int,
    tx: int,
    i: int,
)
    requires
        is_with_one_more_import(one, two, y, tx),
        has_targets(one),
        has_targets(two),
        0 <= i < one.len(),
    ensures
        import_records(two, i, one[i].module@.imports.len()) == import_records(
            one,
            i,
            one[i].module@.imports.len(),
        ),
{
    let m = one[i].module@.imports.len();
    assert forall|k: int| 0 <= k < m implies symbol_records(
        two,
        i,
        k,
        two[i].module@.imports[k].symbols.len(),
    ) == symbol_records(one, i, k, one[i].module@.imports[k].symbols.len()) by {
        if i == y {
            assert(two[y].module@.imports.drop_last()[k] == one[y].module@.imports[k]);
            assert(two[y].targets@.drop_last()[k] == one[y].targets@[k]);
        }
        let import = one[i].module@.imports[k];
        assert(two[i].module@.imports[k] == import);
        let t = one[i].targets@[k] as int;
        assert(two[i].targets@[k] == one[i].targets@[k]);
        assert(two[t].id@ == one[t].id@);
        assert(two[t].module@.exports == one[t].module@.exports);
        assert forall|j: int| 0 <= j < import.symbols.len() implies record_at(two, i, k, j)
            == record_at(one, i, k, j) by {
            lemma_same_names_in_reach(one, two, y, tx, i, import.symbols[j].name);
        }
        lemma_gather_same(
            import.symbols.len(),
            |j: int| record_at(two, i, k, j),
            |j: int| record_at(one, i, k, j),
        );
    }
    lemma_gather_same(
        m,
        |k: int| symbol_records(two, i, k, two[i].module@.imports[k].symbols.len()),
        |k: int| symbol_records(one, i, k, one[i].module@.imports[k].symbols.len()),
    );
}

/// The records of the modules from `from` up to `n`.
pub open spec fn records_between(nodes: Seq<ModuleNode>, from: int, n: int) -> Seq<ImportRecordView>
    decreases n - from,
{
    if n <= from {
        Seq::empty()
    } else {
        records_between(nodes, from, n - 1) + import_records(
            nodes,
            n - 1,
            nodes[n - 1].module@.imports.len(),
        )
    }
}

/// The records of the first `n` modules are those of the first `from` and
/// then those of the rest.
proof fn lemma_records_in_two_parts(nodes: Seq<ModuleNode>, from: int, n: int)
    requires
        0 <= from <= n,
    ensures
        records(nodes, n as nat) == records(nodes, from as nat) + records_between(nodes, from, n),
    decreases n - from,
{
    if n > from {
        lemma_records_in_two_parts(nodes, from, n - 1);
        assert(records(nodes, n as nat) == records(nodes, (n - 1) as nat) + import_records(
            nodes,
            n - 1,
            nodes[n - 1].module@.imports.len(),
        ));
        assert(records(nodes, n as nat) =~= records(nodes, from as nat) + records_between(
            nodes,
            from,
            n,
        ));
    } else {
        assert(records(nodes, n as nat) =~= records(nodes, from as nat) + records_between(
            nodes,
            from,
            n,
        ));
    }
}

/// With one more import in module `y`, the modules on one side of `y`
/// have the records they had.
proof fn lemma_same_records_between(
    one: Seq<ModuleNode>,
    two: Seq<ModuleNode>,
    y: int,
    tx: int,
    from: int,
    n: int,
)
    requires
        is_with_one_more_import(one, two, y, tx),
        has_targets(one),
        has_targets(two),
        0 <= from <= n <= one.len(),
        n <= y || y < from,
    ensures
        records_between(two, from, n) == records_between(one, from, n),
    decreases n - from,
{
    if n > from {
        lemma_same_records_between(one, two, y, tx, from, n - 1);
        lemma_same_import_records(one, two, y, tx, n - 1);
    }
}

/// One more import of names that are exported, from a module that is
/// imported already, changes no finding: what was found before is found,
/// and nothing is found about the names that the import asks for.
pub proof fn lemma_declared_import_changes_no_finding(
    first: ModuleGraph,
    second: ModuleGraph,
    y: int,
    tx: int,
    policy: WildcardPolicy,
)
    requires
        first.wf(),
        second.wf(),
        is_with_one_more_import(first.nodes(), second.nodes(), y, tx),
    ensures
        diagnostics(second.nodes(), policy, Seq::<Finding>::empty()) == diagnostics(
            first.nodes(),
            policy,
            Seq::<Finding>::empty(),
        ),
{
    let one = first.nodes();
    let two = second.nodes();
    let n = one.len() as int;
    lemma_graph_has_targets(first);
    lemma_graph_has_targets(second);
    // What is exported is the same.
    assert forall|i: int| 0 <= i < n implies origins_at(two, i) == origins_at(one, i) by {
        assert(two[i].id@ == one[i].id@);
        assert(origins_at(two, i) =~= origins_at(one, i));
    }
    lemma_gather_same(n as nat, |i: int| origins_at(two, i), |i: int| origins_at(one, i));
    // The records before module `y` and behind it are the same.
    lemma_records_in_two_parts(one, 0, y);
    lemma_records_in_two_parts(two, 0, y);
    lemma_same_records_between(one, two, y, tx, 0, y);
    assert(records(one, 0) =~= Seq::<ImportRecordView>::empty());
    assert(records(two, 0) =~= Seq::<ImportRecordView>::empty());
    let head = records(one, y as nat);
    assert(records(two, y as nat) =~= head);
    lemma_records_in_two_parts(one, y + 1, n);
    lemma_records_in_two_parts(two, y + 1, n);
    lemma_same_records_between(one, two, y, tx, y + 1, n);
    let rest = records_between(one, y + 1, n);
    // Module `y` has the records it had, and those of the one more import.
    let m = one[y].module@.imports.len();
    lemma_same_import_records(one, two, y, tx, y);
    let own = import_records(one, y, m);
    let extra = two[y].module@.imports.last();
    let more = symbol_records(two, y, m as int, extra.symbols.len());
    assert(import_records(two, y, (m + 1) as nat) == import_records(two, y, m) + more);
    assert(records(one, (y + 1) as nat) == head + own);
    assert(records(two, (y + 1) as nat) == head + (own + more));
    // The records of the one more import are borne out.
    assert forall|x: int| 0 <= x < more.len() implies !is_undeclared(#[trigger] more[x], policy) by {
        let (j, e) = lemma_gather_index(
            extra.symbols.len(),
            |j: int| record_at(two, y, m as int, j),
            x,
        );
        let name = extra.symbols[j].name;
        assert(more[x] == record_at(two, y, m as int, j)[e]);
        assert(name != star());
        assert(is_exported_by(one, tx, name));
        assert(two[tx].module@.exports == one[tx].module@.exports);
        assert(two[y].targets@[m as int] == tx);
        assert(is_exported_by(two, two[y].targets@[m as int] as int, name));
        assert(is_exported_to(two, y, name));
    }
    lemma_borne_out_is_silent(more, policy, more.len());
    let before = head + own;
    lemma_undeclared_of_both(before, rest, policy);
    lemma_undeclared_of_both(before, more, policy);
    lemma_undeclared_of_both(before + more, rest, policy);
    assert(records(one, n as nat) =~= before + rest);
    assert(records(two, n as nat) =~= (before + more) + rest);
    assert(undeclared(before + more, policy, (before + more).len()) =~= undeclared(
        before,
        policy,
        before.len(),
    ));
    assert(crate::validate::language_errors(two, Seq::<Finding>::empty())
        =~= crate::validate::language_errors(one, Seq::<Finding>::empty()));
}

/// The name that a finding is about, where it is about one.
pub open spec fn name_of(found: DiagnosticView) -> Option<Seq<u8>> {
    match found {
        DiagnosticView::DuplicateExport { name, first, second } => Some(name),
        DiagnosticView::UndeclaredImport { name, target, at } => Some(name),
        DiagnosticView::UnderlyingLanguageError { message, place } => None,
    }
}

/// A name that is exported once at most, and that the export sets bear out
/// wherever it is imported, is named by no finding.
pub proof fn lemma_sound_name_is_in_no_finding(
    nodes: Seq<ModuleNode>,
    policy: WildcardPolicy,
    name: Seq<u8>,
    found: DiagnosticView,
)
    requires
        forall|a: int, b: int|
            0 <= a < b < origins(nodes, nodes.len()).len() ==> !((#[trigger] origins(
                nodes,
                nodes.len(),
            )[a]).name == name && (#[trigger] origins(nodes, nodes.len())[b]).name == name),
        forall|x: int|
            0 <= x < records(nodes, nodes.len()).len() && (#[trigger] records(
                nodes,
                nodes.len(),
            )[x]).name == name ==> !is_undeclared(records(nodes, nodes.len())[x], policy),
        diagnostics(nodes, policy, Seq::<Finding>::empty()).contains(found),
    ensures
        name_of(found) != Some(name),
{
    let exports = origins(nodes, nodes.len());
    let imports = records(nodes, nodes.len());
    let twice = duplicates(exports, exports.len());
    let missing = undeclared(imports, policy, imports.len());
    let all = diagnostics(nodes, policy, Seq::<Finding>::empty());
    assert(crate::validate::language_errors(nodes, Seq::<Finding>::empty()).len() == 0);
    let at = choose|at: int| 0 <= at < all.len() && all[at] == found;
    lemma_duplicates_are_exact(exports, found);
    lemma_undeclared_are_exact(imports, policy, found);
    if at < twice.len() {
        assert(twice[at] == found);
        assert(twice.contains(found));
        let (a, b) = choose|a: int, b: int|
            0 <= a < b < exports.len() && exports[a].name == exports[b].name && found
                == #[trigger] duplicate_of(exports, a, b);
        assert(!(exports[a].name == name && exports[b].name == name));
    } else {
        assert(missing[at - twice.len()] == found);
        assert(missing.contains(found));
        let x = choose|x: int|
            0 <= x < imports.len() && is_undeclared(#[trigger] imports[x], policy) && found
                == complaint_of(imports[x]);
        assert(imports[x].name != name);
    }
}

} // verus!
