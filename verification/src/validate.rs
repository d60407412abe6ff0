//! The validator: every rule is applied and every finding is kept. A unit
//! is valid only when nothing was found.

use crate::flatten::{
    origin_views, origins, record_views, records, FlattenedUnit, ImportRecord, ImportRecordView,
    Origin, OriginView,
};
use crate::locate::{locate, located};
use crate::path::{place_view, Location, LocationView};
use crate::graph::ModuleNode;
use crate::text::{copy_bytes, gather, same_bytes};
use vstd::prelude::*;

verus! {

/// What to make of a named symbol in an import that also holds the
/// wildcard.
#[derive(Clone, Copy, Debug, PartialEq, Eq)]
pub enum WildcardPolicy {
    /// The wildcard lets every name of that import pass.
    Suppress,
    /// The name must be exported by one of the modules that the importing
    /// module imports.
    Union,
}

/// What a compiler of the shading language reported about the merged text:
/// where, as an offset into the text, and what.
#[derive(Debug, PartialEq, Eq)]
pub struct Finding {
    pub offset: usize,
    pub message: Vec<u8>,
}

/// One finding of the validator.
#[derive(Debug, PartialEq, Eq)]
pub enum Diagnostic {
    /// Two modules export `name`: at `first` and at `second`.
    DuplicateExport { name: Vec<u8>, first: Location, second: Location },
    /// The import at `at` asks for `name`, which `target` does not export.
    UndeclaredImport { name: Vec<u8>, target: crate::path::ModuleId, at: Location },
    /// A compiler of the shading language rejected the text. `place` is
    /// the place in the file that the text came from, where it has one.
    UnderlyingLanguageError { message: Vec<u8>, place: Option<Location> },
}

/// A finding as the contracts see it.
pub enum DiagnosticView {
    DuplicateExport { name: Seq<u8>, first: LocationView, second: LocationView },
    UndeclaredImport { name: Seq<u8>, target: Seq<u8>, at: LocationView },
    UnderlyingLanguageError { message: Seq<u8>, place: Option<LocationView> },
}

impl View for Diagnostic {
    type V = DiagnosticView;

    open spec fn view(&self) -> DiagnosticView {
        match self {
            Diagnostic::DuplicateExport { name, first, second } => DiagnosticView::DuplicateExport {
                name: name@,
                first: first@,
                second: second@,
            },
            Diagnostic::UndeclaredImport { name, target, at } => DiagnosticView::UndeclaredImport {
                name: name@,
                target: target@,
                at: at@,
            },
            Diagnostic::UnderlyingLanguageError { message, place } => DiagnosticView::UnderlyingLanguageError {
                message: message@,
                place: place_view(*place),
            },
        }
    }
}

/// Findings as the contracts see them.
pub open spec fn diagnostic_views(list: Seq<Diagnostic>) -> Seq<DiagnosticView> {
    Seq::new(list.len(), |i: int| list[i]@)
}

/// Where an exported name stands.
pub open spec fn origin_place(origin: OriginView) -> LocationView {
    LocationView { module: origin.module, line: origin.line, column: origin.column }
}

/// The finding for exports `a` and `b`: one where they are the same name,
/// none otherwise.
pub open spec fn clash(exports: Seq<OriginView>, a: int, b: int) -> Seq<DiagnosticView> {
    if exports[a].name == exports[b].name {
        seq![
            DiagnosticView::DuplicateExport {
                name: exports[b].name,
                first: origin_place(exports[a]),
                second: origin_place(exports[b]),
            },
        ]
    } else {
        Seq::empty()
    }
}

/// The findings for export `b` against the first `n` exports.
pub open spec fn clashes_with(exports: Seq<OriginView>, b: int, n: nat) -> Seq<DiagnosticView> {
    gather(n, |a: int| clash(exports, a, b))
}

/// The findings for each of the first `n` exports against those before
/// it: one finding for every two exports of the same name.
pub open spec fn duplicates(exports: Seq<OriginView>, n: nat) -> Seq<DiagnosticView> {
    gather(n, |b: int| clashes_with(exports, b, b as nat))
}

/// Whether the named import is a finding. Without a wildcard beside it,
/// the name must be exported by the module asked. With one, the policy
/// decides.
pub open spec fn is_undeclared(record: ImportRecordView, policy: WildcardPolicy) -> bool {
    if record.wildcard {
        policy == WildcardPolicy::Union && !record.elsewhere
    } else {
        !record.declared
    }
}

/// The finding for one named import: one or none.
pub open spec fn complaint(record: ImportRecordView, policy: WildcardPolicy) -> Seq<DiagnosticView> {
    if is_undeclared(record, policy) {
        seq![
            DiagnosticView::UndeclaredImport {
                name: record.name,
                target: record.target,
                at: LocationView { module: record.module, line: record.line, column: record.column },
            },
        ]
    } else {
        Seq::empty()
    }
}

/// The findings for the first `n` named imports.
pub open spec fn undeclared(records: Seq<ImportRecordView>, policy: WildcardPolicy, n: nat) -> Seq<
    DiagnosticView,
> {
    gather(n, |x: int| complaint(records[x], policy))
}

/// What the compiler reported, each finding with the place that its
/// offset comes from.
pub open spec fn language_errors(nodes: Seq<ModuleNode>, findings: Seq<Finding>) -> Seq<
    DiagnosticView,
> {
    Seq::new(
        findings.len(),
        |f: int|
            DiagnosticView::UnderlyingLanguageError {
                message: findings[f].message@,
                place: located(nodes, findings[f].offset as int),
            },
    )
}

/// Every finding about the modules, in order: names exported twice, names
/// imported but not exported, and what the compiler reported.
pub open spec fn diagnostics(nodes: Seq<ModuleNode>, policy: WildcardPolicy, findings: Seq<Finding>) -> Seq<
    DiagnosticView,
> {
    let exports = origins(nodes, nodes.len());
    let imports = records(nodes, nodes.len());
    duplicates(exports, exports.len()) + undeclared(imports, policy, imports.len()) + language_errors(
        nodes,
        findings,
    )
}

/// The outcome of validation.
pub enum ValidationResult {
    /// Nothing was found.
    Valid(FlattenedUnit),
    /// What was found: at least one finding.
    Invalid(Vec<Diagnostic>),
}

/// Where an exported name stands.
fn place_of(origin: &Origin) -> (place: Location)
    ensures
        place@ == origin_place(origin@),
{
    Location { module: origin.module.duplicate(), line: origin.line, column: origin.column }
}

/// Adds a finding for every two exports of the same name.
fn find_duplicates(exports: &Vec<Origin>, out: &mut Vec<Diagnostic>)
    ensures
        diagnostic_views(final(out)@) == diagnostic_views(old(out)@) + duplicates(
            origin_views(exports@),
            exports@.len(),
        ),
{
    let ghost start = diagnostic_views(out@);
    let ghost all = origin_views(exports@);
    let mut b: usize = 0;
    assert(diagnostic_views(out@) =~= start + duplicates(all, 0));
    while b < exports.len()
        invariant
            b <= exports.len(),
            all == origin_views(exports@),
            diagnostic_views(out@) == start + duplicates(all, b as nat),
        decreases exports.len() - b,
    {
        let ghost outer = diagnostic_views(out@);
        let mut a: usize = 0;
        assert(diagnostic_views(out@) =~= outer + clashes_with(all, b as int, 0));
        while a < b
            invariant
                a <= b < exports.len(),
                all == origin_views(exports@),
                diagnostic_views(out@) == outer + clashes_with(all, b as int, a as nat),
            decreases b - a,
        {
            assert(clashes_with(all, b as int, (a + 1) as nat) == clashes_with(
                all,
                b as int,
                a as nat,
            ) + clash(all, a as int, b as int));
            if same_bytes(&exports[a].name, &exports[b].name) {
                let found = Diagnostic::DuplicateExport {
                    name: copy_bytes(&exports[b].name),
                    first: place_of(&exports[a]),
                    second: place_of(&exports[b]),
                };
                let ghost before = diagnostic_views(out@);
                out.push(found);
                assert(diagnostic_views(out@) =~= before.push(found@));
            }
            assert(diagnostic_views(out@) =~= outer + clashes_with(all, b as int, (a + 1) as nat));
            a += 1;
        }
        assert(duplicates(all, (b + 1) as nat) == duplicates(all, b as nat) + clashes_with(
            all,
            b as int,
            b as nat,
        ));
        assert(diagnostic_views(out@) =~= start + duplicates(all, (b + 1) as nat));
        b += 1;
    }
}

/// Adds a finding for every named import that the export sets do not
/// bear out.
fn find_undeclared(records: &Vec<ImportRecord>, policy: WildcardPolicy, out: &mut Vec<Diagnostic>)
    ensures
        diagnostic_views(final(out)@) == diagnostic_views(old(out)@) + undeclared(
            record_views(records@),
            policy,
            records@.len(),
        ),
{
    let ghost start = diagnostic_views(out@);
    let ghost all = record_views(records@);
    let mut x: usize = 0;
    assert(diagnostic_views(out@) =~= start + undeclared(all, policy, 0));
    while x < records.len()
        invariant
            x <= records.len(),
            all == record_views(records@),
            diagnostic_views(out@) == start + undeclared(all, policy, x as nat),
        decreases records.len() - x,
    {
        let record = &records[x];
        assert(record@ == all[x as int]);
        assert(undeclared(all, policy, (x + 1) as nat) == undeclared(all, policy, x as nat)
            + complaint(all[x as int], policy));
        let unchecked = match policy {
            WildcardPolicy::Suppress => true,
            WildcardPolicy::Union => record.elsewhere,
        };
        let fine = if record.wildcard {
            unchecked
        } else {
            record.declared
        };
        if !fine {
            let found = Diagnostic::UndeclaredImport {
                name: copy_bytes(&record.name),
                target: record.target.duplicate(),
                at: Location {
                    module: record.module.duplicate(),
                    line: record.line,
                    column: record.column,
                },
            };
            let ghost before = diagnostic_views(out@);
            out.push(found);
            assert(diagnostic_views(out@) =~= before.push(found@));
        }
        assert(diagnostic_views(out@) =~= start + undeclared(all, policy, (x + 1) as nat));
        x += 1;
    }
}

/// Adds what the compiler reported, each finding with its place.
fn place_findings(unit: &FlattenedUnit, findings: &Vec<Finding>, out: &mut Vec<Diagnostic>)
    ensures
        diagnostic_views(final(out)@) == diagnostic_views(old(out)@) + language_errors(
            unit.graph().nodes(),
            findings@,
        ),
{
    let ghost start = diagnostic_views(out@);
    let ghost all = language_errors(unit.graph().nodes(), findings@);
    let mut f: usize = 0;
    assert(diagnostic_views(out@) =~= start + all.take(0));
    while f < findings.len()
        invariant
            f <= findings.len(),
            all == language_errors(unit.graph().nodes(), findings@),
            diagnostic_views(out@) == start + all.take(f as int),
        decreases findings.len() - f,
    {
        let found = Diagnostic::UnderlyingLanguageError {
            message: copy_bytes(&findings[f].message),
            place: locate(unit, findings[f].offset),
        };
        let ghost before = diagnostic_views(out@);
        out.push(found);
        assert(diagnostic_views(out@) =~= before.push(found@));
        assert(diagnostic_views(out@) =~= start + all.take(f + 1));
        f += 1;
    }
    assert(all.take(findings.len() as int) =~= all);
}

/// Validates the unit. `findings` is what a compiler of the shading
/// language reported about the unit's text; it is empty where none was
/// asked.
///
/// The unit is valid exactly when there is no finding at all. Otherwise
/// every finding is returned.
pub fn validate(unit: FlattenedUnit, policy: WildcardPolicy, findings: &Vec<Finding>) -> (r:
    ValidationResult)
    ensures
        match r {
            ValidationResult::Valid(valid) => valid == unit && diagnostics(
                unit.graph().nodes(),
                policy,
                findings@,
            ).len() == 0,
            ValidationResult::Invalid(found) => found@.len() > 0 && diagnostic_views(found@)
                == diagnostics(unit.graph().nodes(), policy, findings@),
        },
{
    let mut found: Vec<Diagnostic> = Vec::new();
    assert(diagnostic_views(found@) =~= Seq::<DiagnosticView>::empty());
    find_duplicates(unit.exported_names(), &mut found);
    find_undeclared(unit.named_imports(), policy, &mut found);
    place_findings(&unit, findings, &mut found);
    assert(diagnostic_views(found@) =~= diagnostics(unit.graph().nodes(), policy, findings@));
    if found.len() == 0 {
        ValidationResult::Valid(unit)
    } else {
        ValidationResult::Invalid(found)
    }
}

} // verus!
