//! The emitter and the whole pass: from the file that asks for a module to
//! the declarations handed back, or to the findings that stopped the pass.

use crate::flatten::{flatten, merged, FlattenedUnit};
use crate::graph::{is_genuine, LoadError};
use crate::path::{ModuleId, ProjectRoot};
use crate::sources::{build, error_of, is_fair_outcome, is_graph_of, SourceSet};
use crate::text::copy_bytes;
use crate::validate::{
    diagnostic_views, diagnostics, validate, Diagnostic, Finding, ValidationResult, WildcardPolicy,
};
use vstd::prelude::*;

verus! {

/// The name of the declaration that holds the merged text: `SOURCE`.
pub open spec fn source_name() -> Seq<u8> {
    seq![83u8, 79u8, 85u8, 82u8, 67u8, 69u8]
}

/// One declaration for the calling program: a name and the text bound to it.
#[derive(Debug, PartialEq, Eq)]
pub struct Declaration {
    pub name: Vec<u8>,
    pub text: Vec<u8>,
}

/// Why a pass handed back no declarations.
#[derive(Debug, PartialEq, Eq)]
pub enum Failure {
    /// The import graph could not be built.
    Load(LoadError),
    /// The merged unit did not pass validation.
    Invalid(Vec<Diagnostic>),
}

/// The error that kept the graph from being built, if there was one.
pub open spec fn load_error_of<T>(r: Result<T, Failure>) -> Option<LoadError> {
    match r {
        Err(Failure::Load(error)) => Some(error),
        _ => None,
    }
}

/// Whether `declarations` is what is emitted for `text`: one declaration,
/// named `SOURCE`, that holds the text as it is.
pub open spec fn is_emission(declarations: Seq<Declaration>, text: Seq<u8>) -> bool {
    &&& declarations.len() == 1
    &&& declarations[0].name@ == source_name()
    &&& declarations[0].text@ == text
}

/// The declarations for a validated unit: its text, unchanged. Nothing is
/// emitted for a unit that did not pass.
pub fn emit(result: &ValidationResult) -> (declarations: Vec<Declaration>)
    ensures
        match result {
            ValidationResult::Valid(unit) => is_emission(declarations@, unit.text()),
            ValidationResult::Invalid(_) => declarations@.len() == 0,
        },
{
    let mut declarations: Vec<Declaration> = Vec::new();
    match result {
        ValidationResult::Valid(unit) => {
            let name: Vec<u8> = vec![83u8, 79u8, 85u8, 82u8, 67u8, 69u8];
            assert(name@ =~= source_name());
            declarations.push(Declaration { name, text: copy_bytes(unit.merged_text()) });
        },
        ValidationResult::Invalid(_) => {},
    }
    declarations
}

/// Builds the import graph of the module that `request` names in the file
/// `origin` and merges it.
pub fn load(sources: &SourceSet, root: &ProjectRoot, origin: &ModuleId, request: &Vec<u8>) -> (r:
    Result<FlattenedUnit, LoadError>)
    ensures
        match r {
            Ok(unit) => unit.wf() && is_graph_of(unit.graph(), sources@, root@, origin@, request@),
            Err(error) => is_genuine(sources@, root@, origin@, request@, error),
        },
        is_fair_outcome(sources@, root@, origin@, request@, error_of(r)),
{
    match build(sources, root, origin, request) {
        Ok(graph) => Ok(flatten(graph)),
        Err(error) => Err(error),
    }
}

/// Validates a merged unit and emits its declarations. `findings` is what
/// a compiler of the shading language reported about the unit's text.
pub fn finish(unit: FlattenedUnit, policy: WildcardPolicy, findings: &Vec<Finding>) -> (r: Result<
    Vec<Declaration>,
    Vec<Diagnostic>,
>)
    ensures
        match r {
            Ok(declarations) => {
                &&& diagnostics(unit.graph().nodes(), policy, findings@).len() == 0
                &&& is_emission(declarations@, unit.text())
            },
            Err(found) => {
                &&& found@.len() > 0
                &&& diagnostic_views(found@) == diagnostics(unit.graph().nodes(), policy, findings@)
            },
        },
{
    let result = validate(unit, policy, findings);
    let declarations = emit(&result);
    match result {
        ValidationResult::Valid(_) => Ok(declarations),
        ValidationResult::Invalid(found) => Err(found),
    }
}

/// The whole pass for the module that `requested_path` names in the file
/// `entry_path`, with every module read from `sources` and no compiler of
/// the shading language asked.
///
/// Either one declaration comes back, which holds the bodies of all the
/// modules that imports lead to, each once and after the modules it
/// imports, or nothing is emitted and the failure says why.
pub fn resolve_and_emit(
    sources: &SourceSet,
    root: &ProjectRoot,
    entry_path: &ModuleId,
    requested_path: &Vec<u8>,
    policy: WildcardPolicy,
) -> (r: Result<Vec<Declaration>, Failure>)
    ensures
        match r {
            Ok(declarations) => exists|graph: crate::graph::ModuleGraph|
                {
                    &&& #[trigger] is_graph_of(graph, sources@, root@, entry_path@, requested_path@)
                    &&& diagnostics(graph.nodes(), policy, Seq::empty()).len() == 0
                    &&& is_emission(declarations@, merged(graph.nodes(), graph.nodes().len()))
                },
            Err(Failure::Load(error)) => is_genuine(
                sources@,
                root@,
                entry_path@,
                requested_path@,
                error,
            ),
            Err(Failure::Invalid(found)) => found@.len() > 0 && exists|graph: crate::graph::ModuleGraph|
                {
                    &&& #[trigger] is_graph_of(graph, sources@, root@, entry_path@, requested_path@)
                    &&& diagnostic_views(found@) == diagnostics(graph.nodes(), policy, Seq::empty())
                },
        },
        is_fair_outcome(sources@, root@, entry_path@, requested_path@, load_error_of(r)),
{
    let unit = match load(sources, root, entry_path, requested_path) {
        Ok(unit) => unit,
        Err(error) => {
            return Err(Failure::Load(error));
        },
    };
    let ghost graph = unit.graph();
    let none: Vec<Finding> = Vec::new();
    assert(none@ =~= Seq::empty());
    match finish(unit, policy, &none) {
        Ok(declarations) => {
            assert(is_graph_of(graph, sources@, root@, entry_path@, requested_path@));
            Ok(declarations)
        },
        Err(found) => {
            assert(is_graph_of(graph, sources@, root@, entry_path@, requested_path@));
            Err(Failure::Invalid(found))
        },
    }
}

} // verus!
